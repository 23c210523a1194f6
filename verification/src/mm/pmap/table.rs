//! The three-level page table.
//!
//! A table holds its 512 hardware entries and owns the tables that they point
//! to.  Entries of the last level map single pages; a leaf above it maps a large
//! page, which a walk does not enter.
use vstd::prelude::*;
use crate::hal::addr::PhysAddr;
use crate::mm::allocator::frame_allocator::{
    alloc_raw_frame_sync, frame_allocated, next_frame, FramePool, NUM_MAGAZINES,
};
use crate::mm::allocator::types::{pfn, PageRole};
use crate::mm::pmap::pte::{
    addr_of, encode_pte, entry_of, is_leaf, is_valid, lemma_entry, pte_is_leaf, pte_is_valid,
    PteFlags,
};

verus! {

/// Entries of a table.
pub const ENTRIES: usize = 512;

/// A table of the last level.
pub struct L0Table {
    pub pa: PhysAddr,
    pub entries: Vec<u64>,
}

/// A table of the middle level.
pub struct L1Table {
    pub pa: PhysAddr,
    pub entries: Vec<u64>,
    pub children: Vec<Option<L0Table>>,
}

/// The root of a page table.
pub struct RootTable {
    pub pa: PhysAddr,
    pub entries: Vec<u64>,
    pub children: Vec<Option<L1Table>>,
}

/// The part of `va` that selects the entry at a level: 2 at the root, 0 at the
/// last level.
pub open spec fn vpn(va: int, level: int) -> int {
    if level == 2 {
        va / 0x4000_0000 % 512
    } else if level == 1 {
        va / 0x20_0000 % 512
    } else {
        va / 4096 % 512
    }
}

/// The part of `va` that selects the entry at a level.
pub fn vpn_index(va: u64, level: usize) -> (r: usize)
    requires
        level < 3,
    ensures
        r == vpn(va as int, level as int),
        r < ENTRIES,
{
    if level == 2 {
        (va / 0x4000_0000 % 512) as usize
    } else if level == 1 {
        (va / 0x20_0000 % 512) as usize
    } else {
        (va / 4096 % 512) as usize
    }
}

/// Whether two addresses are translated by the same entry.
pub open spec fn same_page(a: int, b: int) -> bool {
    vpn(a, 2) == vpn(b, 2) && vpn(a, 1) == vpn(b, 1) && vpn(a, 0) == vpn(b, 0)
}

/// `raw` points to the table at `child`, or to no table where there is none.
pub open spec fn links(raw: u64, child: Option<PhysAddr>) -> bool {
    match child {
        Some(pa) => is_valid(raw) && !is_leaf(raw) && addr_of(raw) == pa.0,
        None => !(is_valid(raw) && !is_leaf(raw)),
    }
}

impl L0Table {
    pub open spec fn wf(&self) -> bool {
        self.entries@.len() == ENTRIES
    }
}

pub open spec fn l0_pa(t: Option<L0Table>) -> Option<PhysAddr> {
    match t {
        Some(t) => Some(t.pa),
        None => None,
    }
}

pub open spec fn l1_pa(t: Option<L1Table>) -> Option<PhysAddr> {
    match t {
        Some(t) => Some(t.pa),
        None => None,
    }
}

impl L1Table {
    pub open spec fn wf(&self) -> bool {
        &&& self.entries@.len() == ENTRIES
        &&& self.children@.len() == ENTRIES
        &&& forall|i: int|
            0 <= i < ENTRIES ==> links(#[trigger] self.entries@[i], l0_pa(self.children@[i]))
        &&& forall|i: int|
            0 <= i < ENTRIES ==> ((#[trigger] self.children@[i]) matches Some(t) ==> t.wf())
    }
}

impl RootTable {
    pub open spec fn wf(&self) -> bool {
        &&& self.entries@.len() == ENTRIES
        &&& self.children@.len() == ENTRIES
        &&& forall|i: int|
            0 <= i < ENTRIES ==> links(#[trigger] self.entries@[i], l1_pa(self.children@[i]))
        &&& forall|i: int|
            0 <= i < ENTRIES ==> ((#[trigger] self.children@[i]) matches Some(t) ==> t.wf())
    }

    /// Whether there is a last-level table for `va`.
    pub open spec fn has_slot(&self, va: int) -> bool {
        match self.children@[vpn(va, 2)] {
            Some(l1) => l1.children@[vpn(va, 1)] is Some,
            None => false,
        }
    }

    /// The last-level entry for `va`; zero where there is no table for it.
    pub open spec fn entry_at(&self, va: int) -> u64 {
        match self.children@[vpn(va, 2)] {
            Some(l1) => match l1.children@[vpn(va, 1)] {
                Some(l0) => l0.entries@[vpn(va, 0)],
                None => 0,
            },
            None => 0,
        }
    }

    /// Whether a large page covers `va`.
    pub open spec fn large_at(&self, va: int) -> bool {
        let e = self.entries@[vpn(va, 2)];
        if is_valid(e) && is_leaf(e) {
            true
        } else {
            match self.children@[vpn(va, 2)] {
                Some(l1) => {
                    let e1 = l1.entries@[vpn(va, 1)];
                    is_valid(e1) && is_leaf(e1)
                },
                None => false,
            }
        }
    }

    /// The tables and the entries above the last level are the same.
    pub open spec fn same_upper(&self, other: &RootTable) -> bool {
        &&& self.pa == other.pa
        &&& self.entries@ == other.entries@
        &&& forall|i: int|
            0 <= i < ENTRIES ==> same_upper_l1(#[trigger] self.children@[i], other.children@[i])
    }

    /// Number of pages mapped by last-level entries.
    pub open spec fn resident(&self) -> int {
        resident_in(self.children@, ENTRIES as int)
    }
}

pub open spec fn same_upper_l1(a: Option<L1Table>, b: Option<L1Table>) -> bool {
    match (a, b) {
        (Some(x), Some(y)) => {
            &&& x.pa == y.pa
            &&& x.entries@ == y.entries@
            &&& forall|j: int|
                0 <= j < ENTRIES ==> l0_pa(#[trigger] x.children@[j]) == l0_pa(y.children@[j])
        },
        (None, None) => true,
        _ => false,
    }
}

/// Valid entries among the first `n`.
pub open spec fn valid_in(entries: Seq<u64>, n: int) -> int
    decreases n,
{
    if n <= 0 {
        0
    } else {
        valid_in(entries, n - 1) + if is_valid(entries[n - 1]) {
            1int
        } else {
            0
        }
    }
}

pub open spec fn l0_resident(t: Option<L0Table>) -> int {
    match t {
        Some(t) => valid_in(t.entries@, ENTRIES as int),
        None => 0,
    }
}

/// Pages mapped by the first `n` last-level tables.
pub open spec fn l1_resident_in(children: Seq<Option<L0Table>>, n: int) -> int
    decreases n,
{
    if n <= 0 {
        0
    } else {
        l1_resident_in(children, n - 1) + l0_resident(children[n - 1])
    }
}

pub open spec fn l1_resident(t: Option<L1Table>) -> int {
    match t {
        Some(t) => l1_resident_in(t.children@, ENTRIES as int),
        None => 0,
    }
}

/// Pages mapped through the first `n` middle-level tables.
pub open spec fn resident_in(children: Seq<Option<L1Table>>, n: int) -> int
    decreases n,
{
    if n <= 0 {
        0
    } else {
        resident_in(children, n - 1) + l1_resident(children[n - 1])
    }
}

proof fn lemma_valid_update(entries: Seq<u64>, i: int, raw: u64, n: int)
    requires
        0 <= i < entries.len(),
        n <= entries.len(),
    ensures
        valid_in(entries.update(i, raw), n) == valid_in(entries, n) + if i < n {
            (if is_valid(raw) { 1int } else { 0 }) - (if is_valid(entries[i]) { 1int } else { 0 })
        } else {
            0
        },
    decreases n,
{
    if n > 0 {
        lemma_valid_update(entries, i, raw, n - 1);
    }
}

proof fn lemma_l1_update(children: Seq<Option<L0Table>>, i: int, t: Option<L0Table>, n: int)
    requires
        0 <= i < children.len(),
        n <= children.len(),
    ensures
        l1_resident_in(children.update(i, t), n) == l1_resident_in(children, n) + if i < n {
            l0_resident(t) - l0_resident(children[i])
        } else {
            0
        },
    decreases n,
{
    if n > 0 {
        lemma_l1_update(children, i, t, n - 1);
    }
}

proof fn lemma_root_update(children: Seq<Option<L1Table>>, i: int, t: Option<L1Table>, n: int)
    requires
        0 <= i < children.len(),
        n <= children.len(),
    ensures
        resident_in(children.update(i, t), n) == resident_in(children, n) + if i < n {
            l1_resident(t) - l1_resident(children[i])
        } else {
            0
        },
    decreases n,
{
    if n > 0 {
        lemma_root_update(children, i, t, n - 1);
    }
}

pub proof fn lemma_valid_nonneg(entries: Seq<u64>, n: int)
    ensures
        0 <= valid_in(entries, n),
        n >= 0 ==> valid_in(entries, n) <= n,
    decreases n,
{
    if n > 0 {
        lemma_valid_nonneg(entries, n - 1);
    }
}

pub proof fn lemma_l1_nonneg(children: Seq<Option<L0Table>>, n: int)
    ensures
        0 <= l1_resident_in(children, n),
        n >= 0 ==> l1_resident_in(children, n) <= n * 512,
    decreases n,
{
    if n > 0 {
        lemma_l1_nonneg(children, n - 1);
        if let Some(t) = children[n - 1] {
            lemma_valid_nonneg(t.entries@, 512);
        }
    }
}

/// A table maps at most `2^27` pages.
pub proof fn lemma_resident_bound(children: Seq<Option<L1Table>>, n: int)
    ensures
        0 <= resident_in(children, n),
        n >= 0 ==> resident_in(children, n) <= n * 0x4_0000,
    decreases n,
{
    if n > 0 {
        lemma_resident_bound(children, n - 1);
        if let Some(t) = children[n - 1] {
            lemma_l1_nonneg(t.children@, 512);
        }
    }
}

proof fn lemma_valid_zero(entries: Seq<u64>, n: int)
    requires
        n <= entries.len(),
        forall|i: int| 0 <= i < n ==> entries[i] == 0,
    ensures
        valid_in(entries, n) == 0,
    decreases n,
{
    if n > 0 {
        lemma_valid_zero(entries, n - 1);
    }
}

proof fn lemma_l1_zero(children: Seq<Option<L0Table>>, n: int)
    requires
        n <= children.len(),
        forall|i: int| 0 <= i < n ==> children[i] is None,
    ensures
        l1_resident_in(children, n) == 0,
    decreases n,
{
    if n > 0 {
        lemma_l1_zero(children, n - 1);
    }
}

pub proof fn lemma_root_zero(children: Seq<Option<L1Table>>, n: int)
    requires
        n <= children.len(),
        forall|i: int|
            0 <= i < n ==> l1_resident(#[trigger] children[i]) == 0,
    ensures
        resident_in(children, n) == 0,
    decreases n,
{
    if n > 0 {
        lemma_root_zero(children, n - 1);
        assert(l1_resident(children[n - 1]) == 0);
    }
}

/// 512 zero entries.
fn zero_entries() -> (r: Vec<u64>)
    ensures
        r@.len() == ENTRIES,
        forall|i: int| 0 <= i < ENTRIES ==> r@[i] == 0,
{
    let mut v: Vec<u64> = Vec::new();
    let mut i: usize = 0;
    while i < ENTRIES
        invariant
            i <= ENTRIES,
            v@.len() == i,
            forall|j: int| 0 <= j < i ==> v@[j] == 0,
        decreases ENTRIES - i,
    {
        v.push(0);
        i += 1;
    }
    v
}

/// An empty last-level table in the frame at `pa`.
pub fn new_l0(pa: PhysAddr) -> (r: L0Table)
    ensures
        r.wf(),
        r.pa == pa,
        forall|i: int| 0 <= i < ENTRIES ==> r.entries@[i] == 0,
        l0_resident(Some(r)) == 0,
{
    let r = L0Table { pa, entries: zero_entries() };
    proof {
        lemma_valid_zero(r.entries@, ENTRIES as int);
    }
    r
}

/// An empty middle-level table in the frame at `pa`.
pub fn new_l1(pa: PhysAddr) -> (r: L1Table)
    ensures
        r.wf(),
        r.pa == pa,
        forall|i: int| 0 <= i < ENTRIES ==> r.entries@[i] == 0,
        forall|i: int| 0 <= i < ENTRIES ==> (#[trigger] r.children@[i]) is None,
        l1_resident(Some(r)) == 0,
{
    let mut children: Vec<Option<L0Table>> = Vec::new();
    let mut i: usize = 0;
    while i < ENTRIES
        invariant
            i <= ENTRIES,
            children@.len() == i,
            forall|j: int| 0 <= j < i ==> (#[trigger] children@[j]) is None,
        decreases ENTRIES - i,
    {
        children.push(None);
        i += 1;
    }
    let r = L1Table { pa, entries: zero_entries(), children };
    proof {
        lemma_l1_zero(r.children@, ENTRIES as int);
    }
    r
}

/// An empty root table in the frame at `pa`.
pub fn new_root(pa: PhysAddr) -> (r: RootTable)
    ensures
        r.wf(),
        r.pa == pa,
        forall|i: int| 0 <= i < ENTRIES ==> r.entries@[i] == 0,
        forall|i: int| 0 <= i < ENTRIES ==> (#[trigger] r.children@[i]) is None,
        r.resident() == 0,
{
    let mut children: Vec<Option<L1Table>> = Vec::new();
    let mut i: usize = 0;
    while i < ENTRIES
        invariant
            i <= ENTRIES,
            children@.len() == i,
            forall|j: int| 0 <= j < i ==> (#[trigger] children@[j]) is None,
        decreases ENTRIES - i,
    {
        children.push(None);
        i += 1;
    }
    let r = RootTable { pa, entries: zero_entries(), children };
    proof {
        lemma_root_zero(r.children@, ENTRIES as int);
    }
    r
}

/// Find the last-level entry for `va`; `None` where there is no table for it.
pub fn walk(root: &RootTable, va: u64) -> (r: Option<u64>)
    requires
        root.wf(),
    ensures
        r is Some <==> root.has_slot(va as int),
        r matches Some(raw) ==> raw == root.entry_at(va as int),
        r is None ==> root.entry_at(va as int) == 0,
{
    let i2 = vpn_index(va, 2);
    let i1 = vpn_index(va, 1);
    let i0 = vpn_index(va, 0);
    match &root.children[i2] {
        None => None,
        Some(l1) => {
            assert(root.children@[i2 as int] == Some(*l1));
            match &l1.children[i1] {
                None => None,
                Some(l0) => {
                    assert(l1.children@[i1 as int] == Some(*l0));
                    Some(l0.entries[i0])
                },
            }
        },
    }
}

/// Write the last-level entry for `va`.
pub fn set_slot(root: &mut RootTable, va: u64, raw: u64)
    requires
        old(root).wf(),
        old(root).has_slot(va as int),
    ensures
        final(root).wf(),
        final(root).same_upper(old(root)),
        forall|v: int| #[trigger]
            final(root).entry_at(v) == if same_page(va as int, v) {
                raw
            } else {
                old(root).entry_at(v)
            },
        forall|v: int| #[trigger] final(root).has_slot(v) == old(root).has_slot(v),
        forall|v: int| #[trigger] final(root).large_at(v) == old(root).large_at(v),
        final(root).resident() == old(root).resident() + (if is_valid(raw) { 1int } else { 0 }) - (
        if is_valid(old(root).entry_at(va as int)) { 1int } else { 0 }),
{
    let i2 = vpn_index(va, 2);
    let i1 = vpn_index(va, 1);
    let i0 = vpn_index(va, 0);
    let ghost c0 = root.children@;
    let ghost l1_0 = c0[i2 as int]->0;
    let ghost l0_0 = l1_0.children@[i1 as int]->0;
    let mut l1o: Option<L1Table> = None;
    core::mem::swap(&mut l1o, &mut root.children[i2]);
    if let Some(mut l1) = l1o {
        let mut l0o: Option<L0Table> = None;
        core::mem::swap(&mut l0o, &mut l1.children[i1]);
        if let Some(mut l0) = l0o {
            l0.entries[i0] = raw;
            proof {
                lemma_valid_update(l0_0.entries@, i0 as int, raw, ENTRIES as int);
                assert(l0.entries@ == l0_0.entries@.update(i0 as int, raw));
                lemma_l1_update(l1_0.children@, i1 as int, Some(l0), ENTRIES as int);
            }
            l1.children[i1] = Some(l0);
            proof {
                assert(l1.children@ =~= l1_0.children@.update(i1 as int, Some(l0)));
                lemma_root_update(c0, i2 as int, Some(l1), ENTRIES as int);
            }
        }
        root.children[i2] = Some(l1);
        proof {
            assert(root.children@ =~= c0.update(i2 as int, Some(l1)));
            assert(l1.wf());
        }
    }
}

proof fn lemma_contains_push(s: Seq<PhysAddr>, a: PhysAddr)
    ensures
        s.push(a).contains(a),
        forall|x: PhysAddr| #[trigger] s.contains(x) ==> s.push(a).contains(x),
{
    let t = s.push(a);
    assert(t[s.len() as int] == a);
    assert forall|x: PhysAddr| #[trigger] s.contains(x) implies t.contains(x) by {
        let i = choose|i: int| 0 <= i < s.len() && s[i] == x;
        assert(t[i] == x);
    }
}

/// Every free page can be addressed by an entry.
pub open spec fn pool_holdable(pool: &FramePool) -> bool {
    forall|p: int| #[trigger] pool.pool_free(p) ==> 0 <= p < 0x1000_0000_0000
}

/// Every table below the root is among the recorded frames.
pub open spec fn recorded(root: &RootTable, l0s: Seq<PhysAddr>, l1s: Seq<PhysAddr>) -> bool {
    forall|i: int|
        0 <= i < ENTRIES ==> ((#[trigger] root.children@[i]) matches Some(t) ==> l1s.contains(t.pa)
            && l1_recorded(t, l0s))
}

pub open spec fn l1_recorded(t: L1Table, l0s: Seq<PhysAddr>) -> bool {
    forall|j: int|
        0 <= j < ENTRIES ==> ((#[trigger] t.children@[j]) matches Some(t0) ==> l0s.contains(t0.pa))
}

/// The same tables twice.
pub proof fn lemma_upper_trans(a: &RootTable, b: &RootTable, c: &RootTable)
    requires
        b.same_upper(a),
        c.same_upper(b),
    ensures
        c.same_upper(a),
{
    assert forall|i: int| 0 <= i < ENTRIES implies same_upper_l1(
        #[trigger] c.children@[i],
        a.children@[i],
    ) by {
        assert(same_upper_l1(b.children@[i], a.children@[i]));
        assert(same_upper_l1(c.children@[i], b.children@[i]));
        if let (Some(x), Some(z)) = (c.children@[i], a.children@[i]) {
            let y = b.children@[i]->0;
            assert forall|k: int| 0 <= k < ENTRIES implies l0_pa(#[trigger] x.children@[k])
                == l0_pa(z.children@[k]) by {
                assert(l0_pa(y.children@[k]) == l0_pa(z.children@[k]));
            }
        }
    }
}

/// The entry at `j` of the table; zero where there is no table.
pub open spec fn upper_entry(t: Option<L1Table>, j: int) -> u64 {
    match t {
        Some(x) => x.entries@[j],
        None => 0,
    }
}

/// The frame of the table below entry `j`.
pub open spec fn lower_table(t: Option<L1Table>, j: int) -> Option<PhysAddr> {
    match t {
        Some(x) => l0_pa(x.children@[j]),
        None => None,
    }
}

/// The entry that points to the table at `pa`.
pub open spec fn pointer_to(pa: PhysAddr) -> u64 {
    entry_of(pa.0, PteFlags(1))
}

/// A table of the middle level after a table was made below its entry `i`, where one was: the
/// entry points to it, and all others are as they were.
pub open spec fn l1_grown(before: Option<L1Table>, after: Option<L1Table>, i: int) -> bool {
    &&& forall|j: int|
        0 <= j < ENTRIES && j != i ==> #[trigger] upper_entry(after, j) == upper_entry(before, j)
    &&& forall|j: int|
        0 <= j < ENTRIES && j != i ==> #[trigger] lower_table(after, j) == lower_table(before, j)
    &&& match (lower_table(before, i), lower_table(after, i)) {
        (None, Some(pa)) => upper_entry(after, i) == pointer_to(pa),
        (x, y) => x == y && upper_entry(after, i) == upper_entry(before, i),
    }
}

/// The page table after the tables that `va` lacked were made, where they were: entries point to
/// them, and all other entries above the last level are as they were.
pub open spec fn tables_grown(before: &RootTable, after: &RootTable, va: int) -> bool {
    let i = vpn(va, 2);
    &&& after.pa == before.pa
    &&& forall|j: int|
        0 <= j < ENTRIES && j != i ==> #[trigger] after.entries@[j] == before.entries@[j]
    &&& forall|j: int|
        0 <= j < ENTRIES && j != i ==> same_upper_l1(
            #[trigger] after.children@[j],
            before.children@[j],
        )
    &&& match (l1_pa(before.children@[i]), l1_pa(after.children@[i])) {
        (None, Some(pa)) => after.entries@[i] == pointer_to(pa),
        (x, y) => x == y && after.entries@[i] == before.entries@[i],
    }
    &&& l1_grown(before.children@[i], after.children@[i], vpn(va, 1))
}

/// Changes at the last level leave what was made above it.
pub proof fn lemma_grown_kept(a: &RootTable, b: &RootTable, c: &RootTable, va: int)
    requires
        tables_grown(a, b, va),
        c.same_upper(b),
    ensures
        tables_grown(a, c, va),
{
    let i = vpn(va, 2);
    assert(same_upper_l1(c.children@[i], b.children@[i]));
    assert forall|j: int| 0 <= j < ENTRIES && j != i implies same_upper_l1(
        #[trigger] c.children@[j],
        a.children@[j],
    ) by {
        assert(same_upper_l1(c.children@[j], b.children@[j]));
        assert(same_upper_l1(b.children@[j], a.children@[j]));
        if let (Some(x), Some(z)) = (c.children@[j], a.children@[j]) {
            let y = b.children@[j]->0;
            assert forall|k: int| 0 <= k < ENTRIES implies l0_pa(#[trigger] x.children@[k])
                == l0_pa(z.children@[k]) by {
                assert(l0_pa(y.children@[k]) == l0_pa(z.children@[k]));
            }
        }
    }
    let (bt, ct) = (b.children@[i], c.children@[i]);
    assert forall|j: int| 0 <= j < ENTRIES implies #[trigger] upper_entry(ct, j) == upper_entry(bt, j)
        && lower_table(ct, j) == lower_table(bt, j) by {
        if let (Some(x), Some(y)) = (ct, bt) {
            assert(l0_pa(x.children@[j]) == l0_pa(y.children@[j]));
        }
    }
    assert forall|j: int| 0 <= j < ENTRIES && j != vpn(va, 1) implies #[trigger] lower_table(ct, j)
        == lower_table(a.children@[i], j) by {
        assert(upper_entry(ct, j) == upper_entry(bt, j));
        assert(lower_table(bt, j) == lower_table(a.children@[i], j));
    }
    assert(upper_entry(ct, vpn(va, 1)) == upper_entry(bt, vpn(va, 1)));
}

/// A frame for a table was taken and recorded, where there was one.
pub open spec fn table_taken(
    pool0: &FramePool,
    pool1: &FramePool,
    cpu: int,
    role: PageRole,
    s0: Seq<PhysAddr>,
    s1: Seq<PhysAddr>,
) -> bool {
    let f = next_frame(pool0.buddy.lists(), pool0.stacks(), cpu);
    &&& frame_allocated(pool0, pool1, cpu, role, f)
    &&& s1 == match f {
        Some(pa) => s0.push(pa),
        None => s0,
    }
}

/// Frames for the tables that `va` lacked were taken, the upper first, and recorded; `r` says
/// whether all were to be had.
pub open spec fn tables_taken(
    root: &RootTable,
    pool0: &FramePool,
    pool1: &FramePool,
    cpu: int,
    va: int,
    l0s: Seq<PhysAddr>,
    l0s_after: Seq<PhysAddr>,
    l1s: Seq<PhysAddr>,
    l1s_after: Seq<PhysAddr>,
    r: bool,
) -> bool {
    if root.has_slot(va) || root.large_at(va) {
        &&& *pool1 == *pool0
        &&& l0s_after == l0s
        &&& l1s_after == l1s
        &&& r == root.has_slot(va)
    } else if root.children@[vpn(va, 2)] is Some {
        &&& l1s_after == l1s
        &&& table_taken(pool0, pool1, cpu, PageRole::PteL0, l0s, l0s_after)
        &&& r == has_frame(pool0, cpu)
    } else {
        exists|mid: FramePool|
            {
                &&& #[trigger] table_taken(pool0, &mid, cpu, PageRole::PteL1, l1s, l1s_after)
                &&& if has_frame(pool0, cpu) {
                    &&& table_taken(&mid, pool1, cpu, PageRole::PteL0, l0s, l0s_after)
                    &&& r == has_frame(&mid, cpu)
                } else {
                    !r && *pool1 == mid && l0s_after == l0s
                }
            }
    }
}

/// Whether a frame can be had on `cpu`.
pub open spec fn has_frame(pool: &FramePool, cpu: int) -> bool {
    next_frame(pool.buddy.lists(), pool.stacks(), cpu) is Some
}

/// Make sure that there is a last-level table for `va`, taking frames for the
/// missing tables from `pool` and recording them.  Fails where a large page
/// covers `va` or where no frame is left.
pub fn walk_alloc(
    root: &mut RootTable,
    pool: &mut FramePool,
    cpu: usize,
    va: u64,
    l0s: &mut Vec<PhysAddr>,
    l1s: &mut Vec<PhysAddr>,
) -> (r: bool)
    requires
        old(root).wf(),
        old(pool).inv(),
        pool_holdable(old(pool)),
        cpu < NUM_MAGAZINES,
        recorded(old(root), old(l0s)@, old(l1s)@),
    ensures
        final(root).wf(),
        final(pool).inv(),
        pool_holdable(final(pool)),
        recorded(final(root), final(l0s)@, final(l1s)@),
        old(l0s)@.is_prefix_of(final(l0s)@),
        old(l1s)@.is_prefix_of(final(l1s)@),
        r == final(root).has_slot(va as int),
        old(root).has_slot(va as int) ==> r && *final(pool) == *old(pool) && final(root).same_upper(
            old(root),
        ),
        old(root).large_at(va as int) ==> !r && *final(pool) == *old(pool),
        !r ==> old(root).large_at(va as int) || forall|p: int| !#[trigger] final(pool).pool_free(p),
        final(root).pa == old(root).pa,
        forall|v: int| #[trigger] final(root).entry_at(v) == old(root).entry_at(v),
        forall|v: int| #[trigger] old(root).has_slot(v) ==> final(root).has_slot(v),
        forall|v: int| #[trigger] final(root).large_at(v) == old(root).large_at(v),
        forall|p: int| #[trigger] final(pool).pool_free(p) ==> old(pool).pool_free(p),
        final(root).resident() == old(root).resident(),
        tables_grown(old(root), final(root), va as int),
        tables_taken(
            old(root),
            old(pool),
            final(pool),
            cpu as int,
            va as int,
            old(l0s)@,
            final(l0s)@,
            old(l1s)@,
            final(l1s)@,
            r,
        ),
{
    let i2 = vpn_index(va, 2);
    let i1 = vpn_index(va, 1);
    let ghost c0 = root.children@;
    let e2 = root.entries[i2];
    assert(links(root.entries@[i2 as int], l1_pa(root.children@[i2 as int])));
    if pte_is_valid(e2) && pte_is_leaf(e2) {
        return false;
    }
    if !pte_is_valid(e2) {
        match alloc_raw_frame_sync(pool, cpu, PageRole::PteL1) {
            None => {
                let ghost now = *pool;
                assert(table_taken(
                    old(pool),
                    &now,
                    cpu as int,
                    PageRole::PteL1,
                    old(l1s)@,
                    l1s@,
                ));
                return false;
            },
            Some(pa) => {
                proof {
                    assert(0 <= pfn(pa) < 0x1000_0000_0000);
                    lemma_entry(pa.0, PteFlags(1));
                }
                let l1 = new_l1(pa);
                let raw = encode_pte(pa.0, PteFlags::V());
                root.entries[i2] = raw;
                root.children[i2] = Some(l1);
                l1s.push(pa);
                proof {
                    let now = *pool;
                    assert(table_taken(
                        old(pool),
                        &now,
                        cpu as int,
                        PageRole::PteL1,
                        old(l1s)@,
                        l1s@,
                ));
                    lemma_contains_push(old(l1s)@, pa);
                    lemma_root_update(c0, i2 as int, Some(l1), ENTRIES as int);
                    assert(root.children@ =~= c0.update(i2 as int, Some(l1)));
                    assert forall|v: int| #[trigger]
                        root.large_at(v) == old(root).large_at(v) by {
                        if vpn(v, 2) == i2 {
                            assert(root.entries@[vpn(v, 2)] == raw);
                            assert(l1.entries@[vpn(v, 1)] == 0);
                        }
                    }
                }
            },
        }
    }
    let ghost mid = *root;
    let ghost c1 = root.children@;
    let ghost l1_0 = c1[i2 as int]->0;
    assert(links(root.entries@[i2 as int], l1_pa(root.children@[i2 as int])));
    let mut l1o: Option<L1Table> = None;
    core::mem::swap(&mut l1o, &mut root.children[i2]);
    if let Some(mut l1) = l1o {
        assert(l1 == l1_0);
        let e1 = l1.entries[i1];
        assert(links(l1.entries@[i1 as int], l0_pa(l1.children@[i1 as int])));
        if pte_is_valid(e1) {
            let ok = !pte_is_leaf(e1);
            root.children[i2] = Some(l1);
            assert(root.children@ =~= c1);
            return ok;
        }
        let ghost before = *pool;
        match alloc_raw_frame_sync(pool, cpu, PageRole::PteL0) {
            None => {
                root.children[i2] = Some(l1);
                assert(root.children@ =~= c1);
                assert(table_taken(
                    &before,
                    pool,
                    cpu as int,
                    PageRole::PteL0,
                    old(l0s)@,
                    l0s@,
                ));
                return false;
            },
            Some(pa) => {
                proof {
                    assert(before.pool_free(pfn(pa)));
                    assert(0 <= pfn(pa) < 0x1000_0000_0000);
                    lemma_entry(pa.0, PteFlags(1));
                }
                let l0 = new_l0(pa);
                let raw = encode_pte(pa.0, PteFlags::V());
                l1.entries[i1] = raw;
                l1.children[i1] = Some(l0);
                proof {
                    lemma_l1_update(l1_0.children@, i1 as int, Some(l0), ENTRIES as int);
                    assert(l1.children@ =~= l1_0.children@.update(i1 as int, Some(l0)));
                    lemma_root_update(c1, i2 as int, Some(l1), ENTRIES as int);
                    assert(l1.wf());
                }
                root.children[i2] = Some(l1);
                l0s.push(pa);
                proof {
                    assert(root.children@ =~= c1.update(i2 as int, Some(l1)));
                    lemma_contains_push(old(l0s)@, pa);
                    assert(l1s@.contains(c1[i2 as int]->0.pa));
                    assert forall|i: int| 0 <= i < ENTRIES implies ((
                    #[trigger] root.children@[i]) matches Some(t) ==> l1s@.contains(t.pa)
                        && l1_recorded(t, l0s@)) by {
                        assert(c1[i] matches Some(t) ==> l1s@.contains(t.pa) && l1_recorded(
                            t,
                            old(l0s)@,
                        ));
                        if i == i2 {
                            assert(l1_recorded(l1_0, old(l0s)@));
                        }
                    }
                    assert forall|v: int| #[trigger]
                        root.large_at(v) == old(root).large_at(v) by {
                        assert(mid.large_at(v) == old(root).large_at(v));
                    }
                    assert forall|v: int| #[trigger]
                        root.entry_at(v) == old(root).entry_at(v) by {
                        assert(mid.entry_at(v) == old(root).entry_at(v));
                    }
                    assert forall|v: int| #[trigger]
                        old(root).has_slot(v) implies root.has_slot(v) by {
                        assert(mid.has_slot(v));
                    }
                }
            },
        }
    }
    true
}

} // verus!
