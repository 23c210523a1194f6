//! Address spaces: what each virtual page is mapped to.
use vstd::prelude::*;
use crate::hal::addr::{page_ceil, page_floor, PhysAddr, VirtAddr, PAGE_SIZE};
use crate::mm::allocator::buddy::fits;
use crate::mm::allocator::frame_allocator::{
    alloc_raw_frame_sync, frame_allocated, next_frame, references_dropped, release_frames,
    FramePool, NUM_MAGAZINES,
};
use crate::mm::allocator::magazine::{all_fit, distinct_pages, holds_page};
use crate::mm::allocator::types::{pfn, PageRole};
use crate::mm::pmap::asid::{alloc_asid, asid_taken, global_generation, AsidAllocator};
use crate::mm::pmap::pte::{
    addr_of, encode_pte, entry_of, flags_for, flags_of, holdable, is_leaf, is_valid, lemma_entry,
    law_perm_shows_in_flags, lemma_flag_bits, lemma_join_sw, map_perm_to_pte_flags, pte_flags, pte_is_leaf, pte_is_valid, pte_pa,
    PteFlags,
};
use crate::mm::pmap::table::{
    has_frame, l1_resident, lemma_grown_kept, lemma_resident_bound, lemma_root_zero,
    lemma_upper_trans, new_l1, new_root, pool_holdable, recorded, same_page, set_slot, table_taken,
    tables_grown, tables_taken, vpn, walk, walk_alloc, RootTable, ENTRIES,
};
use crate::mm::vm::map::perm::MapPerm;

verus! {

/// CPUs that an address space may be active on.
pub const MAX_CPUS: usize = 8;

/// Counts of mapped pages.
#[derive(Debug, Clone, Copy)]
pub struct PmapStats {
    pub resident_count: usize,
    pub wired_count: usize,
}

/// Translations that have to be flushed: those of `[start, end)` under `asid`.
#[derive(Debug, Clone, Copy, PartialEq, Eq, Structural)]
pub struct TlbRange {
    pub start: u64,
    pub end: u64,
    pub asid: u16,
}

/// Page table state of one address space.
pub struct Pmap {
    /// Frames of the last-level tables.
    pub l0_tables: Vec<PhysAddr>,
    /// Frames of the middle-level tables.
    pub l1_directories: Vec<PhysAddr>,
    /// The page table.
    pub root: RootTable,
    /// Current identifier.
    pub asid: u16,
    /// Generation of the identifier.
    pub generation: u64,
    /// Which CPUs have this address space loaded.
    pub active: Vec<bool>,
    /// Resident and wired page counts.
    pub stats: PmapStats,
}

/// Whether the entry maps a page.
pub open spec fn maps(raw: u64) -> bool {
    is_valid(raw) && is_leaf(raw)
}

/// Whether the entry is wired.
pub open spec fn wired(raw: u64) -> bool {
    flags_of(raw).has(PteFlags::SW_WIRED())
}

/// The flags for a new mapping.
pub open spec fn enter_flags(prot: MapPerm, wire: bool) -> PteFlags {
    if wire {
        PteFlags((flags_for(prot).0 + 256) as u64)
    } else {
        flags_for(prot)
    }
}

/// The entry after its protection was changed: the page and the software flags
/// stay.
pub open spec fn reprotected(raw: u64, prot: MapPerm) -> u64 {
    if maps(raw) {
        entry_of(addr_of(raw), PteFlags((flags_for(prot).0 + flags_of(raw).0 / 256 * 256) as u64))
    } else {
        raw
    }
}

/// Whether stepping through `[start, end)` page by page touches the page of `v`.
pub open spec fn touches(start: int, end: int, v: int) -> bool {
    exists|k: int| 0 <= k && #[trigger] step_addr(start, k) < end && same_page(step_addr(start, k), v)
}

/// The `k`-th address of such a walk.
pub open spec fn step_addr(start: int, k: int) -> int {
    start + k * 4096
}

impl Pmap {
    /// The table is well formed, its pages are recorded, and the resident count
    /// is the number of valid last-level entries.
    pub open spec fn wf(&self) -> bool {
        &&& self.root.wf()
        &&& holdable(self.root.pa.0)
        &&& recorded(&self.root, self.l0_tables@, self.l1_directories@)
        &&& self.active@.len() == MAX_CPUS
        &&& self.stats.resident_count == self.root.resident()
    }

    /// The entry for `va`, zero where there is none.
    pub open spec fn entry_at(&self, va: int) -> u64 {
        self.root.entry_at(va)
    }

    /// What `va` is mapped to: the address of the page and the flags.
    pub open spec fn mapping_at(&self, va: int) -> Option<(u64, PteFlags)> {
        let raw = self.entry_at(va);
        if maps(raw) {
            Some((addr_of(raw), flags_of(raw)))
        } else {
            None
        }
    }

    /// Everything but the table and the counts is the same.
    pub open spec fn same_identity(&self, other: &Pmap) -> bool {
        &&& self.asid == other.asid
        &&& self.generation == other.generation
        &&& self.active@ == other.active@
        &&& self.root.pa == other.root.pa
    }

    /// Everything above the last level is the same: the tables, their frames and the entries that
    /// point to them or map large pages.
    pub open spec fn same_tables(&self, other: &Pmap) -> bool {
        &&& self.l0_tables@ == other.l0_tables@
        &&& self.l1_directories@ == other.l1_directories@
        &&& self.root.same_upper(&other.root)
    }
}

/// The number of wired entries removed when the pages of `[va, end)` are removed
/// in turn, `entry` giving the entry of each address.
pub open spec fn wired_removed(entry: spec_fn(int) -> u64, va: int, end: int) -> int
    decreases (if va < end { end - va } else { 0 }),
{
    if va >= end {
        0
    } else {
        (if is_valid(entry(va)) && wired(entry(va)) {
            1int
        } else {
            0
        }) + wired_removed(
            |v: int|
                if same_page(va, v) {
                    0u64
                } else {
                    entry(v)
                },
            va + 4096,
            end,
        )
    }
}

proof fn lemma_wired_nonneg(f: spec_fn(int) -> u64, va: int, end: int)
    ensures
        wired_removed(f, va, end) >= 0,
    decreases (if va < end { end - va } else { 0 }),
{
    if va < end {
        lemma_wired_nonneg(
            |v: int|
                if same_page(va, v) {
                    0u64
                } else {
                    f(v)
                },
            va + 4096,
            end,
        );
    }
}

/// One more page touched.
pub proof fn lemma_touches_step(start: int, k: int, v: int)
    requires
        k >= 0,
    ensures
        touches(start, step_addr(start, k + 1), v) <==> touches(start, step_addr(start, k), v)
            || same_page(step_addr(start, k), v),
        !touches(start, start, v),
{
    if touches(start, step_addr(start, k + 1), v) {
        let j = choose|j: int|
            0 <= j && #[trigger] step_addr(start, j) < step_addr(start, k + 1) && same_page(
                step_addr(start, j),
                v,
            );
        if j < k {
            assert(step_addr(start, j) < step_addr(start, k));
        }
    }
    if touches(start, step_addr(start, k), v) {
        let j = choose|j: int|
            0 <= j && #[trigger] step_addr(start, j) < step_addr(start, k) && same_page(
                step_addr(start, j),
                v,
            );
        assert(step_addr(start, j) < step_addr(start, k + 1));
    }
    if same_page(step_addr(start, k), v) {
        assert(step_addr(start, k) < step_addr(start, k + 1));
    }
}

/// A walk that stops at the first address past `end` touches what one up to
/// `end` touches.
pub proof fn lemma_touches_end(start: int, end: int, k: int, v: int)
    requires
        k >= 0,
        step_addr(start, k) >= end,
        k > 0 ==> step_addr(start, k - 1) < end,
    ensures
        touches(start, end, v) <==> touches(start, step_addr(start, k), v),
{
    if touches(start, step_addr(start, k), v) {
        let j = choose|j: int|
            0 <= j && #[trigger] step_addr(start, j) < step_addr(start, k) && same_page(
                step_addr(start, j),
                v,
            );
        assert(step_addr(start, j) <= step_addr(start, k - 1));
    }
    if touches(start, end, v) {
        let j = choose|j: int|
            0 <= j && #[trigger] step_addr(start, j) < end && same_page(step_addr(start, j), v);
        assert(step_addr(start, j) < step_addr(start, k));
    }
}

/// Create an address space in which only the kernel is mapped: a gigapage over
/// its memory at root entry 2, and megapages over the devices and the interrupt
/// controller through a table at root entry 0.
pub fn pmap_create(pool: &mut FramePool, cpu: usize, asids: &mut AsidAllocator) -> (r: Pmap)
    requires
        old(pool).inv(),
        pool_holdable(old(pool)),
        cpu < NUM_MAGAZINES,
        exists|p: int, q: int|
            p != q && #[trigger] old(pool).pool_free(p) && #[trigger] old(pool).pool_free(q),
        old(asids).wf(),
        old(asids).generation < u64::MAX,
    ensures
        r.wf(),
        final(pool).inv(),
        pool_holdable(final(pool)),
        final(asids).wf(),
        asid_taken(old(asids), final(asids)),
        r.asid == old(asids).next,
        r.generation == old(asids).generation,
        r.stats.resident_count == 0,
        r.stats.wired_count == 0,
        forall|c: int| 0 <= c < MAX_CPUS ==> !r.active@[c],
        forall|v: int| #[trigger] r.entry_at(v) == 0,
        r.root.entries@[2] == entry_of(0x8000_0000, PteFlags(239)),
        r.root.children@[0] matches Some(l1) && {
            &&& r.root.entries@[0] == entry_of(l1.pa.0, PteFlags(1))
            &&& r.l1_directories@ == seq![l1.pa]
            &&& forall|i: int|
                0 <= i < ENTRIES ==> #[trigger] l1.entries@[i] == if i == 128 {
                    entry_of(0x1000_0000, PteFlags(231))
                } else if i == 96 {
                    entry_of(0x0C00_0000, PteFlags(231))
                } else if i == 97 {
                    entry_of(0x0C20_0000, PteFlags(231))
                } else {
                    0
                }
            &&& old(pool).pool_free(pfn(l1.pa))
            &&& l1.pa != r.root.pa
        },
        r.l0_tables@.len() == 0,
        forall|i: int| 0 <= i < ENTRIES && i != 0 && i != 2 ==> r.root.entries@[i] == 0,
        exists|mid: FramePool| #[trigger]
            frame_allocated(old(pool), &mid, cpu as int, PageRole::PteL2, Some(r.root.pa))
                && frame_allocated(
                &mid,
                final(pool),
                cpu as int,
                PageRole::PteL1,
                Some(r.l1_directories@[0]),
            ),
        tables_owned(&r, final(pool)),
        old(pool).pool_free(pfn(r.root.pa)),
        forall|p: int| #[trigger]
            final(pool).pool_free(p) <==> old(pool).pool_free(p) && p != pfn(r.root.pa)
                && p != pfn(r.l1_directories@[0]),
{
    let ghost (p0, q0) = choose|p: int, q: int|
        p != q && #[trigger] old(pool).pool_free(p) && #[trigger] old(pool).pool_free(q);
    let first = alloc_raw_frame_sync(pool, cpu, PageRole::PteL2);
    assert(first is Some);
    let root_pa = first.unwrap();
    let ghost mid = *pool;
    assert(frame_allocated(old(pool), &mid, cpu as int, PageRole::PteL2, Some(root_pa)));
    assert(mid.pool_free(p0) || mid.pool_free(q0));
    let second = alloc_raw_frame_sync(pool, cpu, PageRole::PteL1);
    assert(second is Some);
    let l1_pa = second.unwrap();
    let mut root = new_root(root_pa);
    let mut l1 = new_l1(l1_pa);
    proof {
        assert(mid.pool_free(pfn(l1_pa)));
        assert(old(pool).pool_free(pfn(root_pa)) && old(pool).pool_free(pfn(l1_pa)));
        lemma_entry(0x8000_0000, PteFlags(239));
        lemma_entry(0x1000_0000, PteFlags(231));
        lemma_entry(0x0C00_0000, PteFlags(231));
        lemma_entry(0x0C20_0000, PteFlags(231));
        lemma_entry(l1_pa.0, PteFlags(1));
        assert(1u64 | 2 | 4 | 8 | 64 | 128 | 32 == 239 && 1u64 | 2 | 4 | 64 | 128 | 32 == 231)
            by (bit_vector);
    }
    let kernel = PteFlags::V() | PteFlags::R() | PteFlags::W() | PteFlags::X() | PteFlags::A()
        | PteFlags::D() | PteFlags::G();
    let device = PteFlags::V() | PteFlags::R() | PteFlags::W() | PteFlags::A() | PteFlags::D()
        | PteFlags::G();
    root.entries[2] = encode_pte(0x8000_0000, kernel);
    root.entries[0] = encode_pte(l1_pa.0, PteFlags::V());
    let ghost empty_l1 = l1;
    l1.entries[128] = encode_pte(0x1000_0000, device);
    l1.entries[96] = encode_pte(0x0C00_0000, device);
    l1.entries[97] = encode_pte(0x0C20_0000, device);
    assert(l1.wf());
    root.children[0] = Some(l1);
    let (asid, generation) = alloc_asid(asids);
    let mut active: Vec<bool> = Vec::new();
    let mut c: usize = 0;
    while c < MAX_CPUS
        invariant
            c <= MAX_CPUS,
            active@.len() == c,
            forall|d: int| 0 <= d < c ==> !active@[d],
        decreases MAX_CPUS - c,
    {
        active.push(false);
        c += 1;
    }
    let mut l1_directories: Vec<PhysAddr> = Vec::new();
    l1_directories.push(l1_pa);
    let r = Pmap {
        l0_tables: Vec::new(),
        l1_directories,
        root,
        asid,
        generation,
        active,
        stats: PmapStats { resident_count: 0, wired_count: 0 },
    };
    proof {
        assert(r.l1_directories@ =~= seq![l1_pa]);
        assert(r.l1_directories@[0] == l1_pa);
        assert(l1_resident(r.root.children@[0]) == 0) by {
            assert(l1.children@ == empty_l1.children@);
        }
        lemma_root_zero(r.root.children@, ENTRIES as int);
        assert(tables_of(&r) =~= seq![l1_pa]);
        assert forall|p: int| #[trigger] holds_page(tables_of(&r), p) implies p == pfn(l1_pa) by {}
        assert forall|v: int| #[trigger] r.entry_at(v) == 0 by {
            assert(0 <= vpn(v, 2) < 512 && 0 <= vpn(v, 1) < 512);
        }
        assert forall|p: int| #[trigger]
            pool.pool_free(p) <==> old(pool).pool_free(p) && p != pfn(root_pa) && p != pfn(l1_pa) by {
            assert(mid.pool_free(p) <==> old(pool).pool_free(p) && p != pfn(root_pa));
        }
    }
    r
}

/// The frames of all tables below the root.
pub open spec fn tables_of(pmap: &Pmap) -> Seq<PhysAddr> {
    pmap.l0_tables@ + pmap.l1_directories@
}

/// The tables are the address space's own: their frames are distinct, none is free, and nobody
/// else has a reference to one.
pub open spec fn tables_owned(pmap: &Pmap, pool: &FramePool) -> bool {
    let frames = tables_of(pmap);
    &&& distinct_pages(frames)
    &&& all_fit(frames)
    &&& forall|p: int| #[trigger] holds_page(frames, p) ==> !pool.pool_free(p)
    &&& forall|p: int|
        0 <= p < pool.meta@.len() && #[trigger] holds_page(frames, p) ==> pool.meta@[p].refs == 1
}

/// Give back the frames of all tables below the root.
pub fn pmap_destroy(pmap: &mut Pmap, pool: &mut FramePool, cpu: usize)
    requires
        old(pool).inv(),
        cpu < NUM_MAGAZINES,
        ({
            let frames = tables_of(old(pmap));
            &&& distinct_pages(frames)
            &&& all_fit(frames)
            &&& forall|p: int| #[trigger] holds_page(frames, p) ==> !old(pool).pool_free(p)
            &&& forall|p: int|
                0 <= p < old(pool).meta@.len() && #[trigger] holds_page(frames, p) ==> old(pool).meta@[p].refs > 0
            &&& frames.len() <= usize::MAX
            &&& old(pool).free_count() + frames.len() <= usize::MAX
        }),
    ensures
        final(pool).inv(),
        final(pmap).l0_tables@.len() == 0,
        final(pmap).l1_directories@.len() == 0,
        final(pmap).root == old(pmap).root,
        final(pmap).stats.resident_count == 0,
        final(pmap).stats.wired_count == 0,
        final(pmap).same_identity(old(pmap)),
        references_dropped(old(pool), final(pool), cpu as int, tables_of(old(pmap))),
        ({
            let frames = tables_of(old(pmap));
            forall|p: int| #[trigger]
                final(pool).pool_free(p) <==> old(pool).pool_free(p) || holds_page(frames, p) && (p
                    < old(pool).meta@.len() ==> old(pool).meta@[p].refs == 1)
        }),
        tables_owned(old(pmap), old(pool)) ==> forall|p: int| #[trigger]
            final(pool).pool_free(p) <==> old(pool).pool_free(p) || holds_page(
                tables_of(old(pmap)),
                p,
            ),
{
    let mut frames: Vec<PhysAddr> = Vec::new();
    frames.append(&mut pmap.l0_tables);
    frames.append(&mut pmap.l1_directories);
    assert(frames@ =~= tables_of(old(pmap)));
    release_frames(pool, cpu, &frames);
    pmap.stats.resident_count = 0;
    pmap.stats.wired_count = 0;
}

/// Frames for the tables that the page of `va` lacked were taken from the pool, and the address
/// space has recorded them; `ok` says whether all were to be had.
pub open spec fn tables_made(
    before: &Pmap,
    after: &Pmap,
    pool0: &FramePool,
    pool1: &FramePool,
    cpu: int,
    va: int,
    ok: bool,
) -> bool {
    &&& tables_grown(&before.root, &after.root, va)
    &&& tables_taken(
        &before.root,
        pool0,
        pool1,
        cpu,
        va,
        before.l0_tables@,
        after.l0_tables@,
        before.l1_directories@,
        after.l1_directories@,
        ok,
    )
}

/// One more frame among others.
proof fn lemma_one_more(s: Seq<PhysAddr>, i: int, a: PhysAddr)
    requires
        0 <= i <= s.len(),
    ensures
        forall|p: int| #[trigger]
            holds_page(s.insert(i, a), p) <==> holds_page(s, p) || p == pfn(a),
        all_fit(s) && fits(a, 0) ==> all_fit(s.insert(i, a)),
        distinct_pages(s) && !holds_page(s, pfn(a)) ==> distinct_pages(s.insert(i, a)),
{
    let t = s.insert(i, a);
    // Where a frame stood before.
    let was = |j: int| if j < i { j } else { j - 1 };
    assert forall|p: int| #[trigger] holds_page(t, p) <==> holds_page(s, p) || p == pfn(a) by {
        if holds_page(t, p) {
            let j = choose|j: int| 0 <= j < t.len() && (#[trigger] t[j]).0 as int / 4096 == p;
            if j != i {
                assert(t[j] == s[was(j)]);
            }
        }
        if holds_page(s, p) {
            let j = choose|j: int| 0 <= j < s.len() && (#[trigger] s[j]).0 as int / 4096 == p;
            assert(t[if j < i { j } else { j + 1 }] == s[j]);
        }
        assert(t[i] == a);
    }
    if all_fit(s) && fits(a, 0) {
        assert forall|j: int| 0 <= j < t.len() implies fits(#[trigger] t[j], 0) by {
            if j != i {
                assert(t[j] == s[was(j)]);
            }
        }
    }
    if distinct_pages(s) && !holds_page(s, pfn(a)) {
        assert forall|x: int, y: int| 0 <= x < y < t.len() implies (#[trigger] t[x]).0 as int / 4096
            != (#[trigger] t[y]).0 as int / 4096 by {
            if x != i {
                assert(t[x] == s[was(x)]);
            }
            if y != i {
                assert(t[y] == s[was(y)]);
            }
        }
    }
}

/// Frames that are free have no references.
spec fn unreferenced(pool: &FramePool) -> bool {
    forall|p: int|
        0 <= p < pool.meta@.len() && #[trigger] pool.pool_free(p) ==> pool.meta@[p].refs == 0
}

/// What the tables have in common with the pool while one is added.
spec fn owned_frames(frames: Seq<PhysAddr>, pool: &FramePool) -> bool {
    &&& unreferenced(pool)
    &&& distinct_pages(frames)
    &&& all_fit(frames)
    &&& forall|p: int| #[trigger] holds_page(frames, p) ==> !pool.pool_free(p)
    &&& forall|p: int|
        0 <= p < pool.meta@.len() && #[trigger] holds_page(frames, p) ==> pool.meta@[p].refs == 1
}

proof fn lemma_table_owned(
    frames: Seq<PhysAddr>,
    i: int,
    pool0: &FramePool,
    pool1: &FramePool,
    cpu: int,
    role: PageRole,
    a: PhysAddr,
)
    requires
        0 <= i <= frames.len(),
        owned_frames(frames, pool0),
        frame_allocated(pool0, pool1, cpu, role, Some(a)),
    ensures
        owned_frames(frames.insert(i, a), pool1),
        forall|p: int|
            (#[trigger] pool1.pool_free(p) || holds_page(frames.insert(i, a), p)) <==> (
            pool0.pool_free(p) || holds_page(frames, p)),
{
    lemma_one_more(frames, i, a);
    assert forall|p: int|
        0 <= p < pool1.meta@.len() && #[trigger] pool1.pool_free(p) implies pool1.meta@[p].refs
        == 0 by {
        assert(pool0.pool_free(p));
    }
}

/// The frames of the tables stay the address space's own when a page is entered, and no frame is
/// lost: what is free or in a table is what was.  So destroying the address space gives back all
/// that was taken for its tables.
pub proof fn law_tables_stay_owned(
    before: &Pmap,
    after: &Pmap,
    pool0: &FramePool,
    pool1: &FramePool,
    cpu: int,
    va: int,
    ok: bool,
)
    requires
        pool0.inv(),
        tables_owned(before, pool0),
        tables_made(before, after, pool0, pool1, cpu, va, ok),
    ensures
        tables_owned(after, pool1),
        forall|p: int|
            (#[trigger] pool1.pool_free(p) || holds_page(tables_of(after), p)) <==> (
            pool0.pool_free(p) || holds_page(tables_of(before), p)),
{
    let frames = tables_of(before);
    let n = before.l0_tables@.len() as int;
    assert(owned_frames(frames, pool0));
    if before.root.has_slot(va) || before.root.large_at(va) {
        assert(tables_of(after) == frames);
    } else if before.root.children@[vpn(va, 2)] is Some {
        let f = next_frame(pool0.buddy.lists(), pool0.stacks(), cpu);
        if let Some(a) = f {
            lemma_table_owned(frames, n, pool0, pool1, cpu, PageRole::PteL0, a);
            assert(tables_of(after) =~= frames.insert(n, a));
        } else {
            assert(tables_of(after) == frames);
        }
    } else {
        let mid = choose|mid: FramePool|
            {
                &&& #[trigger] table_taken(
                    pool0,
                    &mid,
                    cpu,
                    PageRole::PteL1,
                    before.l1_directories@,
                    after.l1_directories@,
                )
                &&& if has_frame(pool0, cpu) {
                    &&& table_taken(
                        &mid,
                        pool1,
                        cpu,
                        PageRole::PteL0,
                        before.l0_tables@,
                        after.l0_tables@,
                    )
                    &&& ok == has_frame(&mid, cpu)
                } else {
                    !ok && *pool1 == mid && after.l0_tables@ == before.l0_tables@
                }
            };
        let f = next_frame(pool0.buddy.lists(), pool0.stacks(), cpu);
        if let Some(a) = f {
            let last = frames.len() as int;
            lemma_table_owned(frames, last, pool0, &mid, cpu, PageRole::PteL1, a);
            let more = frames.insert(last, a);
            assert(more =~= before.l0_tables@ + after.l1_directories@);
            let g = next_frame(mid.buddy.lists(), mid.stacks(), cpu);
            if let Some(b) = g {
                lemma_table_owned(more, n, &mid, pool1, cpu, PageRole::PteL0, b);
                assert(tables_of(after) =~= more.insert(n, b));
                assert forall|p: int|
                    (#[trigger] pool1.pool_free(p) || holds_page(tables_of(after), p)) <==> (
                    pool0.pool_free(p) || holds_page(frames, p)) by {
                    assert((mid.pool_free(p) || holds_page(more, p)) <==> (pool0.pool_free(p)
                        || holds_page(frames, p)));
                }
            } else {
                assert(tables_of(after) == more);
                assert forall|p: int|
                    (#[trigger] pool1.pool_free(p) || holds_page(tables_of(after), p)) <==> (
                    pool0.pool_free(p) || holds_page(frames, p)) by {
                    assert((mid.pool_free(p) || holds_page(more, p)) <==> (pool0.pool_free(p)
                        || holds_page(frames, p)));
                    assert(!pool1.pool_free(p) && !mid.pool_free(p));
                }
            }
        } else {
            assert(tables_of(after) == frames);
        }
    }
}

/// The page of `va` has the entry `raw`, where the tables for it are there or could be made;
/// where they are not, a large page covers it or no frame is left, and no entry has changed.
pub open spec fn entered(
    before: &Pmap,
    after: &Pmap,
    pool0: &FramePool,
    pool1: &FramePool,
    cpu: int,
    va: int,
    raw: u64,
    ok: bool,
) -> bool {
    &&& tables_made(before, after, pool0, pool1, cpu, va, ok)
    &&& if ok {
        forall|v: int| #[trigger]
            after.entry_at(v) == if same_page(va, v) {
                raw
            } else {
                before.entry_at(v)
            }
    } else {
        &&& before.root.large_at(va) || forall|p: int| !#[trigger] pool1.pool_free(p)
        &&& forall|v: int| #[trigger] after.entry_at(v) == before.entry_at(v)
    }
}

/// Map the page of `va` to the page at `pa`, replacing what was there.  Fails
/// where a large page covers `va` or where no frame is left for a table.
pub fn pmap_enter(
    pmap: &mut Pmap,
    pool: &mut FramePool,
    cpu: usize,
    va: VirtAddr,
    pa: PhysAddr,
    prot: MapPerm,
    wire: bool,
) -> (r: Result<TlbRange, ()>)
    requires
        old(pmap).wf(),
        old(pool).inv(),
        pool_holdable(old(pool)),
        cpu < NUM_MAGAZINES,
        va.0 + 4096 <= u64::MAX,
        old(pmap).stats.wired_count < usize::MAX,
    ensures
        final(pmap).wf(),
        final(pool).inv(),
        pool_holdable(final(pool)),
        final(pmap).same_identity(old(pmap)),
        forall|p: int| #[trigger] final(pool).pool_free(p) ==> old(pool).pool_free(p),
        entered(
            old(pmap),
            final(pmap),
            old(pool),
            final(pool),
            cpu as int,
            va.0 as int,
            entry_of(pa.0, enter_flags(prot, wire)),
            r is Ok,
        ),
        forall|v: int| #[trigger] final(pmap).root.large_at(v) == old(pmap).root.large_at(v),
        old(pmap).root.has_slot(va.0 as int) ==> r is Ok && *final(pool) == *old(pool),
        match r {
            Ok(flush) => {
                &&& !old(pmap).root.large_at(va.0 as int) || old(pmap).root.has_slot(va.0 as int)
                &&& flush == (TlbRange {
                    start: va.0,
                    end: (va.0 + 4096) as u64,
                    asid: old(pmap).asid,
                })
                &&& final(pmap).root.has_slot(va.0 as int)
                &&& final(pmap).stats.wired_count == old(pmap).stats.wired_count + if wire && !(
                is_valid(old(pmap).entry_at(va.0 as int)) && wired(old(pmap).entry_at(va.0 as int))) {
                    1int
                } else {
                    0
                }
            },
            Err(_) => final(pmap).stats == old(pmap).stats,
        },
{
    let mut flags = map_perm_to_pte_flags(prot);
    proof {
        lemma_flag_bits(flags);
    }
    if wire {
        flags = flags | PteFlags::SW_WIRED();
    }
    assert(flags == enter_flags(prot, wire));
    if !walk_alloc(
        &mut pmap.root,
        pool,
        cpu,
        va.0,
        &mut pmap.l0_tables,
        &mut pmap.l1_directories,
    ) {
        return Err(());
    }
    let previous = walk(&pmap.root, va.0).unwrap();
    let was_valid = pte_is_valid(previous);
    let raw = encode_pte(pa.0, flags);
    proof {
        lemma_new_entry_valid(pa.0, flags);
        lemma_resident_bound(pmap.root.children@, ENTRIES as int);
    }
    let ghost grown = pmap.root;
    set_slot(&mut pmap.root, va.0, raw);
    proof {
        lemma_grown_kept(&old(pmap).root, &grown, &pmap.root, va.0 as int);
        lemma_resident_bound(pmap.root.children@, ENTRIES as int);
    }
    if !was_valid {
        pmap.stats.resident_count = pmap.stats.resident_count + 1;
    }
    if wire && !(was_valid && pte_flags(previous).contains(PteFlags::SW_WIRED())) {
        pmap.stats.wired_count = pmap.stats.wired_count + 1;
    }
    Ok(TlbRange { start: va.0, end: va.0 + PAGE_SIZE, asid: pmap.asid })
}

proof fn lemma_new_entry_valid(pa: u64, flags: PteFlags)
    requires
        flags.wf(),
        flags.0 % 2 == 1,
    ensures
        is_valid(entry_of(pa, flags)),
{
    assert(entry_of(pa, flags) == pa / 4096 * 1024 + flags.0);
}

/// What has to be flushed once `[start, end)` was removed from `pmap`: all of it, where anything
/// was mapped there.
pub open spec fn removal_flush(pmap: &Pmap, start: int, end: int) -> Option<TlbRange> {
    if exists|v: int| touches(start, end, v) && is_valid(#[trigger] pmap.entry_at(v)) {
        Some(TlbRange { start: start as u64, end: end as u64, asid: pmap.asid })
    } else {
        None
    }
}

/// The mappings of the pages in `[start, end)` were removed, and `flush` has to be flushed.
pub open spec fn pages_removed(
    before: &Pmap,
    after: &Pmap,
    start: int,
    end: int,
    flush: Option<TlbRange>,
) -> bool {
    &&& after.same_identity(before)
    &&& after.same_tables(before)
    &&& forall|v: int| #[trigger]
        after.entry_at(v) == if touches(start, end, v) && is_valid(before.entry_at(v)) {
            0
        } else {
            before.entry_at(v)
        }
    &&& forall|v: int| #[trigger] after.root.large_at(v) == before.root.large_at(v)
    &&& forall|v: int| #[trigger] after.root.has_slot(v) == before.root.has_slot(v)
    &&& ({
        let n = wired_removed(|v: int| before.entry_at(v), start, end);
        after.stats.wired_count == if n <= before.stats.wired_count {
            before.stats.wired_count - n
        } else {
            0
        }
    })
    &&& flush == removal_flush(before, start, end)
}

/// Remove the mappings of the pages in `[va_start, va_end)`.  Returns what has to
/// be flushed, where anything was mapped.
pub fn pmap_remove(pmap: &mut Pmap, va_start: VirtAddr, va_end: VirtAddr) -> (r: Option<TlbRange>)
    requires
        old(pmap).wf(),
        va_end.0 + 4095 <= u64::MAX,
    ensures
        final(pmap).wf(),
        pages_removed(old(pmap), final(pmap), va_start.0 as int, va_end.0 as int, r),
        r is Some <==> final(pmap).stats.resident_count < old(pmap).stats.resident_count,
        final(pmap).stats.resident_count <= old(pmap).stats.resident_count,
{
    let mut invalidated = false;
    let mut va: u64 = va_start.0;
    let ghost start = va_start.0 as int;
    let ghost end = va_end.0 as int;
    let ghost mut k: int = 0;
    let ghost n = wired_removed(|v: int| old(pmap).entry_at(v), start, end);
    let ghost w0 = old(pmap).stats.wired_count as int;
    proof {
        lemma_wired_nonneg(|v: int| old(pmap).entry_at(v), start, end);
        assert forall|v: int| !#[trigger] touches(start, step_addr(start, 0), v) by {
            lemma_touches_step(start, 0, v);
        }
    }
    while va < va_end.0
        invariant
            pmap.wf(),
            pmap.same_identity(old(pmap)),
            pmap.same_tables(old(pmap)),
            va_end.0 + 4095 <= u64::MAX,
            start == va_start.0,
            end == va_end.0,
            k >= 0,
            va == step_addr(start, k),
            k > 0 ==> step_addr(start, k - 1) < end,
            forall|v: int| #[trigger]
                pmap.entry_at(v) == if touches(start, step_addr(start, k), v) && is_valid(
                    old(pmap).entry_at(v),
                ) {
                    0
                } else {
                    old(pmap).entry_at(v)
                },
            forall|v: int| #[trigger] pmap.root.large_at(v) == old(pmap).root.large_at(v),
            forall|v: int| #[trigger] pmap.root.has_slot(v) == old(pmap).root.has_slot(v),
            w0 == old(pmap).stats.wired_count,
            n >= 0,
            ({
                let left = wired_removed(|v: int| pmap.entry_at(v), va as int, end);
                let gone = n - left;
                gone >= 0 && pmap.stats.wired_count == if gone <= w0 {
                    w0 - gone
                } else {
                    0
                }
            }),
            invalidated <==> pmap.stats.resident_count < old(pmap).stats.resident_count,
            pmap.stats.resident_count <= old(pmap).stats.resident_count,
            invalidated ==> exists|v: int|
                touches(start, step_addr(start, k), v) && is_valid(#[trigger] old(pmap).entry_at(v)),
            !invalidated ==> forall|v: int|
                touches(start, step_addr(start, k), v) ==> !is_valid(
                    #[trigger] old(pmap).entry_at(v),
                ),
        decreases va_end.0 + 4096 - va,
    {
        let ghost before = *pmap;
        let ghost cur = va as int;
        let ghost was = invalidated;
        let ghost stepped = |v: int|
            if same_page(cur, v) {
                0u64
            } else {
                before.entry_at(v)
            };
        if let Some(raw) = walk(&pmap.root, va) {
            if pte_is_valid(raw) {
                set_slot(&mut pmap.root, va, 0);
                proof {
                    lemma_upper_trans(&old(pmap).root, &before.root, &pmap.root);
                }
                proof {
                    lemma_resident_bound(pmap.root.children@, ENTRIES as int);
                }
                pmap.stats.resident_count = pmap.stats.resident_count.saturating_sub(1);
                if pte_flags(raw).contains(PteFlags::SW_WIRED()) {
                    pmap.stats.wired_count = pmap.stats.wired_count.saturating_sub(1);
                }
                invalidated = true;
            }
        }
        proof {
            let f = |v: int| before.entry_at(v);
            let g = |v: int| pmap.entry_at(v);
            lemma_wired_step(f, g, cur, end);
            assert(stepped =~= (|v: int|
                if same_page(cur, v) {
                    0u64
                } else {
                    f(v)
                }));
            assert forall|v: int| #[trigger]
                pmap.entry_at(v) == if touches(start, step_addr(start, k + 1), v) && is_valid(
                    old(pmap).entry_at(v),
                ) {
                    0
                } else {
                    old(pmap).entry_at(v)
                } by {
                lemma_touches_step(start, k, v);
                lemma_same_entry(&before.root, cur, v);
                lemma_same_entry(&old(pmap).root, cur, v);
                lemma_touch_same(start, step_addr(start, k), cur, v);
                let b = before.entry_at(v);
                let c = before.entry_at(cur);
                assert(same_page(cur, v) ==> b == c);
            }
            lemma_touches_step(start, k, cur);
            let c = before.entry_at(cur);
            assert(c == old(pmap).entry_at(cur) || c == 0);
            if invalidated {
                if was {
                    let w = choose|v: int|
                        touches(start, step_addr(start, k), v) && is_valid(
                            #[trigger] old(pmap).entry_at(v),
                        );
                    lemma_touches_step(start, k, w);
                    assert(touches(start, step_addr(start, k + 1), w) && is_valid(
                        old(pmap).entry_at(w),
                    ));
                } else {
                    assert(is_valid(old(pmap).entry_at(cur)));
                }
            } else {
                assert forall|v: int|
                    touches(start, step_addr(start, k + 1), v) implies !is_valid(
                    #[trigger] old(pmap).entry_at(v),
                ) by {
                    lemma_touches_step(start, k, v);
                    lemma_same_entry(&old(pmap).root, cur, v);
                }
            }
            assert(step_addr(start, k + 1) == cur + 4096);
            k = k + 1;
        }
        va = va + PAGE_SIZE;
    }
    proof {
        assert forall|v: int| touches(start, end, v) == #[trigger] touches(
            start,
            step_addr(start, k),
            v,
        ) by {
            lemma_touches_end(start, end, k, v);
        }
        assert forall|v: int| #[trigger]
            pmap.entry_at(v) == if touches(start, end, v) && is_valid(old(pmap).entry_at(v)) {
                0
            } else {
                old(pmap).entry_at(v)
            } by {
            lemma_touches_end(start, end, k, v);
        }
        if invalidated {
            let w = choose|v: int|
                touches(start, step_addr(start, k), v) && is_valid(
                    #[trigger] old(pmap).entry_at(v),
                );
            assert(touches(start, end, w) && is_valid(old(pmap).entry_at(w)));
        } else {
            assert forall|v: int| touches(start, end, v) implies !is_valid(
                #[trigger] old(pmap).entry_at(v),
            ) by {
                lemma_touches_end(start, end, k, v);
            }
        }
    }
    if invalidated {
        Some(TlbRange { start: va_start.0, end: va_end.0, asid: pmap.asid })
    } else {
        None
    }
}

/// Addresses of one page have one entry.
pub proof fn lemma_same_entry(root: &RootTable, a: int, b: int)
    ensures
        same_page(a, b) ==> root.entry_at(a) == root.entry_at(b),
{
}

pub proof fn lemma_touch_same(start: int, end: int, a: int, b: int)
    ensures
        same_page(a, b) ==> touches(start, end, a) == touches(start, end, b),
{
    if same_page(a, b) {
        if touches(start, end, a) {
            let j = choose|j: int|
                0 <= j && #[trigger] step_addr(start, j) < end && same_page(step_addr(start, j), a);
            assert(same_page(step_addr(start, j), b));
        }
        if touches(start, end, b) {
            let j = choose|j: int|
                0 <= j && #[trigger] step_addr(start, j) < end && same_page(step_addr(start, j), b);
            assert(same_page(step_addr(start, j), a));
        }
    }
}

/// Removing an invalid entry removes nothing wired, and it does not matter then
/// whether the entry is cleared.
proof fn lemma_wired_step(f: spec_fn(int) -> u64, g: spec_fn(int) -> u64, va: int, end: int)
    requires
        va < end,
        forall|v: int| #[trigger]
            g(v) == if same_page(va, v) && is_valid(f(va)) {
                0
            } else {
                f(v)
            },
        forall|v: int| same_page(va, v) ==> #[trigger] f(v) == f(va),
    ensures
        wired_removed(f, va, end) == (if is_valid(f(va)) && wired(f(va)) {
            1int
        } else {
            0
        }) + wired_removed(g, va + 4096, end),
{
    let h = |v: int|
        if same_page(va, v) {
            0u64
        } else {
            f(v)
        };
    lemma_wired_invalid(h, g, va + 4096, end);
}

/// Only valid entries count.
proof fn lemma_wired_invalid(f: spec_fn(int) -> u64, g: spec_fn(int) -> u64, va: int, end: int)
    requires
        forall|v: int| #[trigger] f(v) == g(v) || !is_valid(f(v)) && !is_valid(g(v)),
    ensures
        wired_removed(f, va, end) == wired_removed(g, va, end),
    decreases (if va < end { end - va } else { 0 }),
{
    if va < end {
        let f1 = |v: int|
            if same_page(va, v) {
                0u64
            } else {
                f(v)
            };
        let g1 = |v: int|
            if same_page(va, v) {
                0u64
            } else {
                g(v)
            };
        assert(f(va) == g(va) || !is_valid(f(va)) && !is_valid(g(va)));
        lemma_wired_invalid(f1, g1, va + 4096, end);
    }
}

/// What has to be flushed once `[start, end)` of `pmap` was given another protection: all of
/// it, where anything was mapped there.
pub open spec fn protect_flush(pmap: &Pmap, start: int, end: int) -> Option<TlbRange> {
    if exists|v: int| touches(start, end, v) && maps(#[trigger] pmap.entry_at(v)) {
        Some(TlbRange { start: start as u64, end: end as u64, asid: pmap.asid })
    } else {
        None
    }
}

/// The mapped pages in `[start, end)` have the protection `prot`, and `flush` has to be flushed.
pub open spec fn pages_protected(
    before: &Pmap,
    after: &Pmap,
    start: int,
    end: int,
    prot: MapPerm,
    flush: Option<TlbRange>,
) -> bool {
    &&& after.same_identity(before)
    &&& after.same_tables(before)
    &&& after.stats == before.stats
    &&& forall|v: int| #[trigger]
        after.entry_at(v) == if touches(start, end, v) {
            reprotected(before.entry_at(v), prot)
        } else {
            before.entry_at(v)
        }
    &&& forall|v: int| #[trigger] after.root.large_at(v) == before.root.large_at(v)
    &&& forall|v: int| #[trigger] after.root.has_slot(v) == before.root.has_slot(v)
    &&& flush == protect_flush(before, start, end)
}

/// Change the protection of the mapped pages in `[va_start, va_end)`.  Returns
/// what has to be flushed, where anything was mapped.
pub fn pmap_protect(
    pmap: &mut Pmap,
    va_start: VirtAddr,
    va_end: VirtAddr,
    prot: MapPerm,
) -> (r: Option<TlbRange>)
    requires
        old(pmap).wf(),
        va_end.0 + 4095 <= u64::MAX,
    ensures
        final(pmap).wf(),
        pages_protected(old(pmap), final(pmap), va_start.0 as int, va_end.0 as int, prot, r),
{
    let new_flags = map_perm_to_pte_flags(prot);
    let mut invalidated = false;
    let mut va: u64 = va_start.0;
    let ghost start = va_start.0 as int;
    let ghost end = va_end.0 as int;
    let ghost mut k: int = 0;
    proof {
        assert forall|v: int| !#[trigger] touches(start, step_addr(start, 0), v) by {
            lemma_touches_step(start, 0, v);
        }
    }
    while va < va_end.0
        invariant
            pmap.wf(),
            pmap.same_identity(old(pmap)),
            pmap.same_tables(old(pmap)),
            pmap.stats == old(pmap).stats,
            va_end.0 + 4095 <= u64::MAX,
            new_flags == flags_for(prot),
            start == va_start.0,
            end == va_end.0,
            k >= 0,
            va == step_addr(start, k),
            k > 0 ==> step_addr(start, k - 1) < end,
            forall|v: int| #[trigger]
                pmap.entry_at(v) == if touches(start, step_addr(start, k), v) {
                    reprotected(old(pmap).entry_at(v), prot)
                } else {
                    old(pmap).entry_at(v)
                },
            forall|v: int| #[trigger] pmap.root.large_at(v) == old(pmap).root.large_at(v),
            forall|v: int| #[trigger] pmap.root.has_slot(v) == old(pmap).root.has_slot(v),
            invalidated ==> exists|v: int|
                touches(start, step_addr(start, k), v) && maps(#[trigger] old(pmap).entry_at(v)),
            !invalidated ==> forall|v: int|
                touches(start, step_addr(start, k), v) ==> !maps(#[trigger] old(pmap).entry_at(v)),
        decreases va_end.0 + 4096 - va,
    {
        let ghost before = *pmap;
        let ghost cur = va as int;
        let ghost was = invalidated;
        if let Some(raw) = walk(&pmap.root, va) {
            if pte_is_valid(raw) && pte_is_leaf(raw) {
                let pa = pte_pa(raw);
                let f = pte_flags(raw);
                proof {
                    lemma_flag_bits(f);
                    assert((256u64 | 512) == 768) by (bit_vector);
                    lemma_join_sw(new_flags.0, f.0 & 768);
                }
                let sw_bits = f & (PteFlags::SW_WIRED() | PteFlags::SW_MANAGED());
                let flags = new_flags | sw_bits;
                let new_raw = encode_pte(pa, flags);
                proof {
                    lemma_entry(pa, flags);
                    assert(new_raw == reprotected(raw, prot));
                }
                set_slot(&mut pmap.root, va, new_raw);
                proof {
                    lemma_upper_trans(&old(pmap).root, &before.root, &pmap.root);
                }
                invalidated = true;
            }
        }
        proof {
            assert forall|v: int| #[trigger]
                pmap.entry_at(v) == if touches(start, step_addr(start, k + 1), v) {
                    reprotected(old(pmap).entry_at(v), prot)
                } else {
                    old(pmap).entry_at(v)
                } by {
                lemma_touches_step(start, k, v);
                lemma_same_entry(&before.root, cur, v);
                lemma_same_entry(&old(pmap).root, cur, v);
                lemma_touch_same(start, step_addr(start, k), cur, v);
                lemma_reprotect_twice(old(pmap).entry_at(cur), prot);
                let b = before.entry_at(v);
                let c = before.entry_at(cur);
                assert(same_page(cur, v) ==> b == c);
            }
            lemma_touches_step(start, k, cur);
            lemma_reprotect_twice(old(pmap).entry_at(cur), prot);
            let c = before.entry_at(cur);
            assert(c == old(pmap).entry_at(cur) || c == reprotected(old(pmap).entry_at(cur), prot));
            if invalidated {
                if was {
                    let w = choose|v: int|
                        touches(start, step_addr(start, k), v) && maps(
                            #[trigger] old(pmap).entry_at(v),
                        );
                    lemma_touches_step(start, k, w);
                    assert(touches(start, step_addr(start, k + 1), w) && maps(
                        old(pmap).entry_at(w),
                    ));
                } else {
                    assert(maps(old(pmap).entry_at(cur)));
                }
            } else {
                assert forall|v: int|
                    touches(start, step_addr(start, k + 1), v) implies !maps(
                    #[trigger] old(pmap).entry_at(v),
                ) by {
                    lemma_touches_step(start, k, v);
                    lemma_same_entry(&old(pmap).root, cur, v);
                }
            }
            assert(step_addr(start, k + 1) == cur + 4096);
            k = k + 1;
        }
        va = va + PAGE_SIZE;
    }
    proof {
        assert forall|v: int| touches(start, end, v) == #[trigger] touches(
            start,
            step_addr(start, k),
            v,
        ) by {
            lemma_touches_end(start, end, k, v);
        }
        assert forall|v: int| #[trigger]
            pmap.entry_at(v) == if touches(start, end, v) {
                reprotected(old(pmap).entry_at(v), prot)
            } else {
                old(pmap).entry_at(v)
            } by {
            lemma_touches_end(start, end, k, v);
        }
        if invalidated {
            let w = choose|v: int|
                touches(start, step_addr(start, k), v) && maps(#[trigger] old(pmap).entry_at(v));
            assert(touches(start, end, w) && maps(old(pmap).entry_at(w)));
        }
    }
    if invalidated {
        Some(TlbRange { start: va_start.0, end: va_end.0, asid: pmap.asid })
    } else {
        None
    }
}

/// Changing the protection again to the same changes nothing, and it keeps the
/// page and the software flags.
pub proof fn lemma_reprotect_twice(raw: u64, prot: MapPerm)
    ensures
        reprotected(reprotected(raw, prot), prot) == reprotected(raw, prot),
        is_valid(reprotected(raw, prot)) == is_valid(raw),
        addr_of(reprotected(raw, prot)) == addr_of(raw),
        flags_of(reprotected(raw, prot)).0 / 256 == flags_of(raw).0 / 256,
        maps(reprotected(raw, prot)) ==> maps(raw),
{
    if maps(raw) {
        let f = PteFlags((flags_for(prot).0 + flags_of(raw).0 / 256 * 256) as u64);
        lemma_entry(addr_of(raw), f);
        let n = reprotected(raw, prot);
        assert(flags_of(n) == f);
        if maps(n) {
            lemma_entry(addr_of(n), f);
        }
    }
}

/// The physical address that `va` translates to.
pub fn pmap_extract(pmap: &Pmap, va: VirtAddr) -> (r: Option<PhysAddr>)
    requires
        pmap.wf(),
    ensures
        match (r, pmap.mapping_at(va.0 as int)) {
            (Some(pa), Some(m)) => pa.0 == m.0 + va.0 % 4096,
            (None, None) => true,
            _ => false,
        },
{
    match pmap_extract_with_flags(pmap, va) {
        Some((pa, _)) => Some(pa),
        None => None,
    }
}

/// The physical address that `va` translates to, and the flags of the mapping.
pub fn pmap_extract_with_flags(pmap: &Pmap, va: VirtAddr) -> (r: Option<(PhysAddr, PteFlags)>)
    requires
        pmap.wf(),
    ensures
        match (r, pmap.mapping_at(va.0 as int)) {
            (Some((pa, flags)), Some(m)) => pa.0 == m.0 + va.0 % 4096 && flags == m.1,
            (None, None) => true,
            _ => false,
        },
{
    match walk(&pmap.root, va.0) {
        None => None,
        Some(raw) => {
            if pte_is_valid(raw) && pte_is_leaf(raw) {
                Some((PhysAddr::new(pte_pa(raw) + va.0 % PAGE_SIZE), pte_flags(raw)))
            } else {
                None
            }
        },
    }
}

/// The value of the address-translation register for this address space.
pub open spec fn satp_of(asid: u16, root: u64) -> int {
    0x8000_0000_0000_0000 + asid * 0x1000_0000_0000 + root / 4096
}

/// Load this address space on `cpu_id`, taking a new identifier first where the
/// one it has is of an older generation.  Returns the value of the
/// address-translation register.
pub fn pmap_activate(pmap: &mut Pmap, asids: &mut AsidAllocator, cpu_id: usize) -> (satp: u64)
    requires
        old(pmap).wf(),
        cpu_id < MAX_CPUS,
        old(asids).wf(),
        old(asids).generation < u64::MAX,
    ensures
        final(pmap).wf(),
        final(asids).wf(),
        final(pmap).root == old(pmap).root,
        final(pmap).l0_tables == old(pmap).l0_tables,
        final(pmap).l1_directories == old(pmap).l1_directories,
        final(pmap).stats == old(pmap).stats,
        final(pmap).active@ == old(pmap).active@.update(cpu_id as int, true),
        satp == satp_of(final(pmap).asid, old(pmap).root.pa.0),
        old(pmap).generation == old(asids).generation ==> final(pmap).asid == old(pmap).asid
            && final(pmap).generation == old(pmap).generation && *final(asids) == *old(asids),
        old(pmap).generation != old(asids).generation ==> final(pmap).asid == old(asids).next
            && final(pmap).generation == old(asids).generation && asid_taken(
            old(asids),
            final(asids),
        ),
{
    if pmap.generation != global_generation(asids) {
        let (new_asid, new_gen) = alloc_asid(asids);
        pmap.asid = new_asid;
        pmap.generation = new_gen;
    }
    pmap.active.set(cpu_id, true);
    let root = pmap.root.pa.0;
    let asid: u64 = pmap.asid as u64;
    assert(((8u64 << 60) | (asid << 44)) | (root >> 12) == 0x8000_0000_0000_0000 + asid
        * 0x1000_0000_0000 + root / 4096) by (bit_vector)
        requires
            asid < 0x1_0000,
            root < 0x100_0000_0000_0000,
    ;
    (8u64 << 60) | (asid << 44) | (root >> 12)
}

/// Note that `cpu_id` no longer has this address space loaded.  Returns the
/// identifier whose translations it has to flush.
pub fn pmap_deactivate(pmap: &mut Pmap, cpu_id: usize) -> (flush_asid: u16)
    requires
        old(pmap).wf(),
        cpu_id < MAX_CPUS,
    ensures
        final(pmap).wf(),
        final(pmap).root == old(pmap).root,
        final(pmap).l0_tables == old(pmap).l0_tables,
        final(pmap).l1_directories == old(pmap).l1_directories,
        final(pmap).stats == old(pmap).stats,
        final(pmap).asid == old(pmap).asid,
        final(pmap).generation == old(pmap).generation,
        final(pmap).active@ == old(pmap).active@.update(cpu_id as int, false),
        flush_asid == old(pmap).asid,
{
    pmap.active.set(cpu_id, false);
    pmap.asid
}

/// The flags after an access to the page: accessed, and dirty where it was a
/// write.
pub open spec fn touched_flags(f: PteFlags, write: bool) -> PteFlags {
    let a = if f.has(PteFlags::A()) {
        f.0 as int
    } else {
        f.0 + 64
    };
    PteFlags(
        (if write && !f.has(PteFlags::D()) {
            a + 128
        } else {
            a
        }) as u64,
    )
}

/// Set the accessed and dirty flags after an access to `va`.  Returns whether
/// anything was set.
pub fn pmap_fault(pmap: &mut Pmap, va: VirtAddr, write: bool) -> (r: bool)
    requires
        old(pmap).wf(),
    ensures
        final(pmap).wf(),
        final(pmap).same_identity(old(pmap)),
        final(pmap).same_tables(old(pmap)),
        final(pmap).stats == old(pmap).stats,
        ({
            let raw = old(pmap).entry_at(va.0 as int);
            let f = flags_of(raw);
            &&& r == (maps(raw) && (!f.has(PteFlags::A()) || write && !f.has(PteFlags::D())))
            &&& forall|v: int| #[trigger]
                final(pmap).entry_at(v) == if r && same_page(va.0 as int, v) {
                    entry_of(addr_of(raw), touched_flags(f, write))
                } else {
                    old(pmap).entry_at(v)
                }
        }),
{
    match walk(&pmap.root, va.0) {
        None => false,
        Some(raw) => {
            if !pte_is_valid(raw) || !pte_is_leaf(raw) {
                return false;
            }
            let mut flags = pte_flags(raw);
            let ghost f0 = flags;
            let mut changed = false;
            proof {
                lemma_flag_bits(flags);
            }
            if !flags.contains(PteFlags::A()) {
                flags = flags | PteFlags::A();
                changed = true;
            }
            proof {
                lemma_flag_bits(flags);
            }
            if write && !flags.contains(PteFlags::D()) {
                flags = flags | PteFlags::D();
                changed = true;
            }
            if !changed {
                return false;
            }
            assert(flags == touched_flags(f0, write));
            let pa = pte_pa(raw);
            let new_raw = encode_pte(pa, flags);
            proof {
                lemma_entry(pa, flags);
                assert(is_valid(new_raw));
            }
            set_slot(&mut pmap.root, va.0, new_raw);
            true
        },
    }
}

/// Whether `bit` is set in the entry for `va`.
fn pte_bit_check(pmap: &Pmap, va: VirtAddr, bit: PteFlags) -> (r: bool)
    requires
        pmap.wf(),
    ensures
        r == (is_valid(pmap.entry_at(va.0 as int)) && flags_of(pmap.entry_at(va.0 as int)).has(bit)),
{
    match walk(&pmap.root, va.0) {
        None => false,
        Some(raw) => pte_is_valid(raw) && pte_flags(raw).contains(bit),
    }
}

/// Clear `bit` in the entry for `va`.  Returns what has to be flushed.
fn pte_bit_clear(pmap: &mut Pmap, va: VirtAddr, bit: PteFlags) -> (r: Option<TlbRange>)
    requires
        old(pmap).wf(),
        bit.0 == 64 || bit.0 == 128,
        va.0 + 4096 <= u64::MAX,
    ensures
        final(pmap).wf(),
        final(pmap).same_identity(old(pmap)),
        final(pmap).same_tables(old(pmap)),
        final(pmap).stats == old(pmap).stats,
        bit_cleared(old(pmap), final(pmap), va.0, bit, r),
{
    match walk(&pmap.root, va.0) {
        None => None,
        Some(raw) => {
            if pte_is_valid(raw) {
                let f = pte_flags(raw);
                proof {
                    lemma_flag_bits(f);
                }
                let flags = f.difference(bit);
                let pa = pte_pa(raw);
                let new_raw = encode_pte(pa, flags);
                proof {
                    lemma_entry(pa, flags);
                    assert(is_valid(new_raw));
                }
                set_slot(&mut pmap.root, va.0, new_raw);
                Some(TlbRange { start: va.0, end: va.0 + PAGE_SIZE, asid: pmap.asid })
            } else {
                None
            }
        },
    }
}

/// Whether the page of `va` was accessed.
pub fn pmap_is_referenced(pmap: &Pmap, va: VirtAddr) -> (r: bool)
    requires
        pmap.wf(),
    ensures
        r == (is_valid(pmap.entry_at(va.0 as int)) && flags_of(pmap.entry_at(va.0 as int)).has(
            PteFlags::A(),
        )),
{
    pte_bit_check(pmap, va, PteFlags::A())
}

/// Whether the page of `va` was written.
pub fn pmap_is_modified(pmap: &Pmap, va: VirtAddr) -> (r: bool)
    requires
        pmap.wf(),
    ensures
        r == (is_valid(pmap.entry_at(va.0 as int)) && flags_of(pmap.entry_at(va.0 as int)).has(
            PteFlags::D(),
        )),
{
    pte_bit_check(pmap, va, PteFlags::D())
}

/// What clearing `bit` for `va` does.
pub open spec fn bit_cleared(
    before: &Pmap,
    after: &Pmap,
    va: u64,
    bit: PteFlags,
    r: Option<TlbRange>,
) -> bool {
    let raw = before.entry_at(va as int);
    let f = flags_of(raw);
    &&& r is Some <==> is_valid(raw)
    &&& r matches Some(flush) ==> flush == (TlbRange {
        start: va,
        end: (va + 4096) as u64,
        asid: before.asid,
    })
    &&& forall|v: int| #[trigger]
        after.entry_at(v) == if is_valid(raw) && same_page(va as int, v) {
            entry_of(
                addr_of(raw),
                PteFlags(
                    (f.0 - if f.has(bit) {
                        bit.0 as int
                    } else {
                        0
                    }) as u64,
                ),
            )
        } else {
            before.entry_at(v)
        }
}

/// Clear the accessed flag of the page of `va`.
pub fn pmap_clear_referenced(pmap: &mut Pmap, va: VirtAddr) -> (r: Option<TlbRange>)
    requires
        old(pmap).wf(),
        va.0 + 4096 <= u64::MAX,
    ensures
        final(pmap).wf(),
        final(pmap).same_identity(old(pmap)),
        final(pmap).same_tables(old(pmap)),
        final(pmap).stats == old(pmap).stats,
        bit_cleared(old(pmap), final(pmap), va.0, PteFlags::A(), r),
{
    pte_bit_clear(pmap, va, PteFlags::A())
}

/// Clear the dirty flag of the page of `va`.
pub fn pmap_clear_modified(pmap: &mut Pmap, va: VirtAddr) -> (r: Option<TlbRange>)
    requires
        old(pmap).wf(),
        va.0 + 4096 <= u64::MAX,
    ensures
        final(pmap).wf(),
        final(pmap).same_identity(old(pmap)),
        final(pmap).same_tables(old(pmap)),
        final(pmap).stats == old(pmap).stats,
        bit_cleared(old(pmap), final(pmap), va.0, PteFlags::D(), r),
{
    pte_bit_clear(pmap, va, PteFlags::D())
}

/// What has to be flushed once the page of `va` was entered.
pub open spec fn page_flush(pmap: &Pmap, va: int) -> TlbRange {
    TlbRange { start: va as u64, end: (va + 4096) as u64, asid: pmap.asid }
}

/// Pages from `start` on were entered one after the other, each at its own address; all but
/// perhaps the last could be.
pub open spec fn steps_entered(
    spaces: Seq<Pmap>,
    pools: Seq<FramePool>,
    cpu: int,
    start: int,
    end: int,
    prot: MapPerm,
    ok: bool,
) -> bool {
    let n = spaces.len() - 1;
    &&& pools.len() == spaces.len()
    &&& forall|j: int|
        0 <= j < n ==> #[trigger] step_addr(start, j) < end && entered(
            &spaces[j],
            &spaces[j + 1],
            &pools[j],
            &pools[j + 1],
            cpu,
            step_addr(start, j),
            entry_of(step_addr(start, j) as u64, enter_flags(prot, false)),
            j < n - 1 || ok,
        )
    &&& if ok {
        step_addr(start, n) >= end
    } else {
        n >= 1
    }
}

/// The pages of `[start, end)` were entered, each at its own address, up to the first that could
/// not be; `ok` says whether all could.
pub open spec fn range_entered(
    before: &Pmap,
    after: &Pmap,
    pool0: &FramePool,
    pool1: &FramePool,
    cpu: int,
    start: int,
    end: int,
    prot: MapPerm,
    ok: bool,
) -> bool {
    exists|spaces: Seq<Pmap>, pools: Seq<FramePool>| #[trigger]
        steps_entered(spaces, pools, cpu, start, end, prot, ok) && spaces.len() > 0 && spaces[0]
            == *before && spaces.last() == *after && pools[0] == *pool0 && pools.last() == *pool1
}

/// Map the pages of `[pa_start, pa_end)`, widened to page boundaries, each to
/// itself.  Stops at the first page that cannot be mapped.  Returns what has to be flushed.
#[verifier::rlimit(60)]
pub fn pmap_enter_range(
    pmap: &mut Pmap,
    pool: &mut FramePool,
    cpu: usize,
    pa_start: u64,
    pa_end: u64,
    prot: MapPerm,
) -> (r: Result<Vec<TlbRange>, ()>)
    requires
        old(pmap).wf(),
        old(pool).inv(),
        pool_holdable(old(pool)),
        cpu < NUM_MAGAZINES,
        pa_end + 4095 <= u64::MAX,
        old(pmap).stats.wired_count < usize::MAX,
    ensures
        final(pmap).wf(),
        final(pool).inv(),
        pool_holdable(final(pool)),
        final(pmap).same_identity(old(pmap)),
        final(pmap).stats.wired_count == old(pmap).stats.wired_count,
        forall|v: int|
            !touches(page_floor(pa_start as int), page_ceil(pa_end as int), v) ==> #[trigger] final(pmap).entry_at(v) == old(pmap).entry_at(v),
        r is Ok && page_ceil(pa_end as int) <= 0x80_0000_0000 ==> forall|j: int|
            0 <= j && #[trigger] step_addr(page_floor(pa_start as int), j) < page_ceil(
                pa_end as int,
            ) ==> final(pmap).entry_at(step_addr(page_floor(pa_start as int), j)) == entry_of(
                step_addr(page_floor(pa_start as int), j) as u64,
                flags_for(prot),
            ),
        range_entered(
            old(pmap),
            final(pmap),
            old(pool),
            final(pool),
            cpu as int,
            page_floor(pa_start as int),
            page_ceil(pa_end as int),
            prot,
            r is Ok,
        ),
        r matches Ok(flushes) ==> {
            &&& forall|j: int|
                0 <= j < flushes@.len() ==> #[trigger] flushes@[j] == page_flush(
                    old(pmap),
                    step_addr(page_floor(pa_start as int), j),
                )
            &&& forall|j: int|
                0 <= j ==> (j < flushes@.len() <==> #[trigger] step_addr(
                    page_floor(pa_start as int),
                    j,
                ) < page_ceil(pa_end as int))
        },
        r is Err ==> (exists|v: int|
            touches(page_floor(pa_start as int), page_ceil(pa_end as int), v)
                && #[trigger] old(pmap).root.large_at(v)) || forall|p: int| !#[trigger] final(pool).pool_free(p),
{
    let start: u64 = pa_start / PAGE_SIZE * PAGE_SIZE;
    let end: u64 = (pa_end + (PAGE_SIZE - 1)) / PAGE_SIZE * PAGE_SIZE;
    let mut pa: u64 = start;
    let mut flushes: Vec<TlbRange> = Vec::new();
    let ghost mut spaces = seq![*pmap];
    let ghost mut pools = seq![*pool];
    let ghost s0 = start as int;
    let ghost mut k: int = 0;
    proof {
        assert forall|v: int| !#[trigger] touches(s0, step_addr(s0, 0), v) by {
            lemma_touches_step(s0, 0, v);
        }
    }
    while pa < end
        invariant
            pmap.wf(),
            pool.inv(),
            pool_holdable(pool),
            cpu < NUM_MAGAZINES,
            pmap.same_identity(old(pmap)),
            pmap.stats.wired_count == old(pmap).stats.wired_count,
            old(pmap).stats.wired_count < usize::MAX,
            s0 == start == page_floor(pa_start as int),
            end == page_ceil(pa_end as int),
            end + 4095 <= u64::MAX,
            k >= 0,
            spaces.len() == k + 1,
            pools.len() == k + 1,
            spaces[0] == *old(pmap),
            pools[0] == *old(pool),
            spaces[k] == *pmap,
            pools[k] == *pool,
            forall|j: int|
                0 <= j < k ==> #[trigger] step_addr(s0, j) < end && entered(
                    &spaces[j],
                    &spaces[j + 1],
                    &pools[j],
                    &pools[j + 1],
                    cpu as int,
                    step_addr(s0, j),
                    entry_of(step_addr(s0, j) as u64, enter_flags(prot, false)),
                    true,
                ),
            flushes@.len() == k,
            forall|j: int|
                0 <= j < k ==> #[trigger] flushes@[j] == page_flush(old(pmap), step_addr(s0, j)),
            pa == step_addr(s0, k),
            k > 0 ==> step_addr(s0, k - 1) < end,
            forall|v: int|
                !touches(s0, step_addr(s0, k), v) ==> #[trigger] pmap.entry_at(v) == old(pmap).entry_at(v),
            end <= 0x80_0000_0000 ==> forall|j: int|
                0 <= j < k ==> pmap.entry_at(#[trigger] step_addr(s0, j)) == entry_of(
                    step_addr(s0, j) as u64,
                    flags_for(prot),
                ),
            forall|v: int| #[trigger] pmap.root.large_at(v) == old(pmap).root.large_at(v),
            forall|p: int| #[trigger] pool.pool_free(p) ==> old(pool).pool_free(p),
        decreases end + 4096 - pa,
    {
        let ghost before = *pmap;
        let ghost cur = pa as int;
        let done = pmap_enter(
            pmap,
            pool,
            cpu,
            VirtAddr::new(pa),
            PhysAddr::new(pa),
            prot,
            false,
        );
        proof {
            assert forall|v: int|
                !touches(s0, step_addr(s0, k + 1), v) implies #[trigger] pmap.entry_at(v) == old(pmap).entry_at(v) by {
                lemma_touches_step(s0, k, v);
                assert(before.entry_at(v) == old(pmap).entry_at(v));
            }
            lemma_touches_step(s0, k, cur);
            assert(step_addr(s0, k) < end as int);
            assert(touches(s0, end as int, cur));
            assert forall|v: int|
                !touches(s0, end as int, v) implies #[trigger] pmap.entry_at(v) == old(pmap).entry_at(
                v,
            ) by {
                if touches(s0, step_addr(s0, k + 1), v) {
                    let j = choose|j: int|
                        0 <= j && #[trigger] step_addr(s0, j) < step_addr(s0, k + 1) && same_page(
                            step_addr(s0, j),
                            v,
                        );
                    assert(step_addr(s0, j) < end as int);
                }
            }
        }
        proof {
            let (ss, qs) = (spaces, pools);
            spaces = spaces.push(*pmap);
            pools = pools.push(*pool);
            assert forall|j: int| 0 <= j < k + 1 implies #[trigger] step_addr(s0, j) < end
                && entered(
                &spaces[j],
                &spaces[j + 1],
                &pools[j],
                &pools[j + 1],
                cpu as int,
                step_addr(s0, j),
                entry_of(step_addr(s0, j) as u64, enter_flags(prot, false)),
                j < k || done is Ok,
            ) by {
                if j < k {
                    assert(spaces[j] == ss[j] && spaces[j + 1] == ss[j + 1]);
                    assert(pools[j] == qs[j] && pools[j + 1] == qs[j + 1]);
                }
            }
        }
        match done {
            Ok(flush) => {
                flushes.push(flush);
            },
            Err(_) => {
                assert(before.root.large_at(cur) == old(pmap).root.large_at(cur));
                assert(steps_entered(spaces, pools, cpu as int, s0, end as int, prot, false));
                return Err(());
            },
        }
        proof {
            if end <= 0x80_0000_0000 {
                assert forall|j: int| 0 <= j < k + 1 implies pmap.entry_at(
                    #[trigger] step_addr(s0, j),
                ) == entry_of(step_addr(s0, j) as u64, flags_for(prot)) by {
                    if j < k {
                        lemma_pages_apart(step_addr(s0, j), cur);
                        lemma_steps_apart(s0, j, k);
                        assert(before.entry_at(step_addr(s0, j)) == entry_of(
                            step_addr(s0, j) as u64,
                            flags_for(prot),
                        ));
                    }
                }
            }
            assert(step_addr(s0, k + 1) == cur + 4096);
            k = k + 1;
        }
        pa = pa + PAGE_SIZE;
    }
    proof {
        assert forall|v: int|
            !touches(s0, end as int, v) implies #[trigger] pmap.entry_at(v) == old(pmap).entry_at(v) by {
            lemma_touches_end(s0, end as int, k, v);
        }
        assert forall|j: int| 0 <= j && #[trigger] step_addr(s0, j) < end implies j < k by {}
        assert(steps_entered(spaces, pools, cpu as int, s0, end as int, prot, true));
    }
    Ok(flushes)
}

proof fn lemma_steps_apart(start: int, j: int, k: int)
    requires
        j < k,
    ensures
        step_addr(start, j) / 4096 < step_addr(start, k) / 4096,
{
}

/// Below `2^39`, addresses on different pages have different entries.
pub proof fn lemma_pages_apart(a: int, b: int)
    requires
        0 <= a < 0x80_0000_0000,
        0 <= b < 0x80_0000_0000,
    ensures
        same_page(a, b) <==> a / 4096 == b / 4096,
{
    lemma_vpn_sum(a);
    lemma_vpn_sum(b);
    assert(a / 0x4000_0000 == a / 4096 / 0x4_0000);
    assert(b / 0x4000_0000 == b / 4096 / 0x4_0000);
    assert(a / 0x20_0000 == a / 4096 / 512);
    assert(b / 0x20_0000 == b / 4096 / 512);
}

/// An address below `2^39` is made of its three indices and its offset.
pub proof fn lemma_vpn_sum(a: int)
    requires
        0 <= a < 0x80_0000_0000,
    ensures
        a == vpn(a, 2) * 0x4000_0000 + vpn(a, 1) * 0x20_0000 + vpn(a, 0) * 4096 + a % 4096,
{
    let p = a / 4096;
    assert(a / 0x20_0000 == p / 512);
    assert(a / 0x4000_0000 == p / 512 / 512);
    assert(p / 512 / 512 < 512);
}

/// What is entered can be extracted: after mapping `va` to the page at `pa` with
/// some access, `va` translates to that page with exactly the access asked for,
/// and nothing else changes.
pub proof fn law_enter_then_extract(pa: u64, prot: MapPerm, wire: bool)
    requires
        holdable(pa),
        prot.has(MapPerm::R()) || prot.has(MapPerm::W()) || prot.has(MapPerm::X()),
    ensures
        ({
            let raw = entry_of(pa, enter_flags(prot, wire));
            let f = flags_of(raw);
            &&& maps(raw)
            &&& addr_of(raw) == pa
            &&& f.has(PteFlags::R()) == prot.has(MapPerm::R())
            &&& f.has(PteFlags::W()) == prot.has(MapPerm::W())
            &&& f.has(PteFlags::X()) == prot.has(MapPerm::X())
            &&& f.has(PteFlags::U()) == prot.has(MapPerm::U())
            &&& wired(raw) == wire
        }),
{
    let fl = enter_flags(prot, wire);
    lemma_entry(pa, fl);
    lemma_flag_bits(fl);
}

/// Changing the protection of a mapped page keeps the page and the software
/// flags and leaves exactly the access asked for: in particular, a page whose
/// write access is taken away cannot be written.
pub proof fn law_protect_sets_access(raw: u64, prot: MapPerm)
    requires
        maps(raw),
    ensures
        ({
            let n = reprotected(raw, prot);
            let f = flags_of(n);
            &&& is_valid(n)
            &&& addr_of(n) == addr_of(raw)
            &&& f.has(PteFlags::R()) == prot.has(MapPerm::R())
            &&& f.has(PteFlags::W()) == prot.has(MapPerm::W())
            &&& f.has(PteFlags::X()) == prot.has(MapPerm::X())
            &&& f.has(PteFlags::U()) == prot.has(MapPerm::U())
            &&& wired(n) == wired(raw)
        }),
{
    let hw = flags_for(prot).0;
    let before = flags_of(raw).0;
    let f = PteFlags((hw + before / 256 * 256) as u64);
    lemma_entry(addr_of(raw), f);
    law_perm_shows_in_flags(prot);
    let w = f.0;
    assert((w & 2 == 2) == (hw & 2 == 2) && (w & 4 == 4) == (hw & 4 == 4) && (w & 8 == 8) == (hw & 8
        == 8) && (w & 16 == 16) == (hw & 16 == 16) && (w & 256 == 256) == (before & 256 == 256))
        by (bit_vector)
        requires
            hw < 256,
            before < 1024,
            w == hw + before / 256 * 256,
    ;
}

/// A walk over a range touches the page of each of its addresses, where it starts at a page.
pub proof fn lemma_range_touched(start: int, end: int, v: int)
    requires
        0 <= start <= v < end,
        start % 4096 == 0,
    ensures
        touches(start, end, v),
{
    let k = (v - start) / 4096;
    let a = step_addr(start, k);
    assert(a <= v < a + 4096);
    assert(a % 4096 == 0);
    assert(a / 4096 == v / 4096);
    assert(a / 0x20_0000 == v / 0x20_0000);
    assert(a / 0x4000_0000 == v / 0x4000_0000);
    assert(same_page(a, v));
}

/// After a range was removed no address in it is translated, translations of no page outside it have
/// changed, and where one was lost the whole range is to be flushed.
pub proof fn law_removed_pages_are_gone(
    before: &Pmap,
    after: &Pmap,
    start: int,
    end: int,
    flush: Option<TlbRange>,
    v: int,
)
    requires
        pages_removed(before, after, start, end, flush),
        0 <= start < end <= u64::MAX,
        start % 4096 == 0,
        0 <= v,
    ensures
        start <= v < end ==> after.entry_at(v) % 2 == 0,
        start <= v < end && before.entry_at(v) % 2 == 1 ==> flush == Some(
            TlbRange { start: start as u64, end: end as u64, asid: before.asid },
        ),
        end <= 0x80_0000_0000 && end % 4096 == 0 && v < 0x80_0000_0000 && !(start <= v < end)
            ==> after.entry_at(v) == before.entry_at(v),
        after.entry_at(v) == before.entry_at(v) || after.entry_at(v) == 0,
{
    if start <= v < end {
        lemma_range_touched(start, end, v);
    } else if end <= 0x80_0000_0000 && end % 4096 == 0 && v < 0x80_0000_0000 {
        lemma_outside_untouched(start, end, v);
    }
}

/// The three parts of an address make up the number of its page.
proof fn lemma_page_number(a: int)
    requires
        0 <= a < 0x80_0000_0000,
    ensures
        a / 4096 == vpn(a, 2) * 0x4_0000 + vpn(a, 1) * 512 + vpn(a, 0),
{
    let q = a / 4096;
    let r = a / 0x20_0000;
    let t = a / 0x4000_0000;
    assert(r == q / 512);
    assert(t == r / 512);
    assert(t % 512 == t);
    assert(q == (q / 512) * 512 + q % 512);
    assert(r == (r / 512) * 512 + r % 512);
}

/// Addresses on one page with a step of a walk over whole pages lie in its range.
proof fn lemma_whole_step(start: int, end: int, k: int, v: int)
    requires
        0 <= start < end,
        start % 4096 == 0,
        end % 4096 == 0,
        0 <= k,
        step_addr(start, k) < end,
        step_addr(start, k) / 4096 == v / 4096,
    ensures
        start <= v < end,
{
    let a = step_addr(start, k);
    let p = start / 4096;
    let q = end / 4096;
    assert(start == p * 4096 && end == q * 4096);
    assert(a == (p + k) * 4096);
    assert(a / 4096 == p + k);
    assert(p + k < q);
}

/// Below the last address that three levels of tables tell apart, a walk over whole pages touches no
/// other page.
pub proof fn lemma_outside_untouched(start: int, end: int, v: int)
    requires
        0 <= start < end <= 0x80_0000_0000,
        start % 4096 == 0,
        end % 4096 == 0,
        0 <= v < 0x80_0000_0000,
        !(start <= v < end),
    ensures
        !touches(start, end, v),
{
    if touches(start, end, v) {
        let k = choose|k: int|
            0 <= k && #[trigger] step_addr(start, k) < end && same_page(step_addr(start, k), v);
        let a = step_addr(start, k);
        lemma_page_number(a);
        lemma_page_number(v);
        lemma_whole_step(start, end, k, v);
    }
}

/// After a range was given a protection every page of it that is translated can be read, written and
/// executed just as the protection says, and is still the same page; and the range is to be flushed.
pub proof fn law_protected_pages_obey(
    before: &Pmap,
    after: &Pmap,
    start: int,
    end: int,
    prot: MapPerm,
    flush: Option<TlbRange>,
    v: int,
)
    requires
        pages_protected(before, after, start, end, prot, flush),
        0 <= start <= v < end <= u64::MAX,
        start % 4096 == 0,
        before.entry_at(v) % 2 == 1,
        before.entry_at(v) / 2 % 8 != 0,
    ensures
        ({
            let raw = after.entry_at(v);
            &&& raw % 2 == 1
            &&& (raw & 2 == 2) == (prot.0 & 1 == 1)
            &&& (raw & 4 == 4) == (prot.0 & 2 == 2)
            &&& (raw & 8 == 8) == (prot.0 & 4 == 4)
            &&& (raw & 16 == 16) == (prot.0 & 8 == 8)
            &&& raw as int / 1024 % 0x1000_0000_0000 == before.entry_at(v) as int / 1024
                % 0x1000_0000_0000
        }),
        flush == Some(TlbRange { start: start as u64, end: end as u64, asid: before.asid }),
{
    lemma_range_touched(start, end, v);
    let old_raw = before.entry_at(v);
    law_protect_sets_access(old_raw, prot);
    let raw = after.entry_at(v);
    assert((raw % 1024) & 2 == raw & 2 && (raw % 1024) & 4 == raw & 4 && (raw % 1024) & 8 == raw & 8 && (
    raw % 1024) & 16 == raw & 16) by (bit_vector);
    assert(addr_of(raw) == addr_of(old_raw));
}

} // verus!
