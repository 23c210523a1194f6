//! Going through the mappings of a range of addresses.
use vstd::prelude::*;
use crate::hal::addr::{PhysAddr, VirtAddr};
use crate::mm::pmap::pte::{
    addr_of, flags_of, pte_flags, pte_is_leaf, pte_is_valid, pte_pa, PteFlags,
};
use crate::mm::pmap::space::maps;
use crate::mm::pmap::table::{l0_pa, l1_pa, links, L0Table, L1Table, RootTable, ENTRIES};

verus! {

/// A mapping met in a range: where it starts, the address it maps to and its
/// flags.
pub type Item = (VirtAddr, PhysAddr, PteFlags);

/// Bytes mapped by one entry of the root, of the middle level and of the last.
pub open spec fn span(depth: int) -> int {
    if depth == 0 {
        0x4000_0000
    } else if depth == 1 {
        0x20_0000
    } else {
        4096
    }
}

/// The mapping of a leaf at `va`.
pub open spec fn item(va: int, raw: u64) -> Item {
    (VirtAddr(va as u64), PhysAddr(addr_of(raw)), flags_of(raw))
}

/// The first and the last entry, of size `unit`, of the table for
/// `[sub, sub + size)` that `[start, end)` reaches.
pub open spec fn first_index(sub: int, unit: int, start: int) -> int {
    (if start > sub {
        start
    } else {
        sub
    }) / unit % 512
}

pub open spec fn last_index(sub: int, size: int, unit: int, end: int) -> int {
    ((if end < sub + size {
        end
    } else {
        sub + size
    }) - 1) / unit % 512
}

/// Mappings of the entries `i` to `e` of a last-level table for addresses from
/// `base`.
pub open spec fn l0_items(t: L0Table, base: int, i: int, e: int) -> Seq<Item>
    decreases e - i + 1,
{
    if i > e {
        Seq::empty()
    } else {
        (if maps(t.entries@[i]) {
            seq![item(base + i * 4096, t.entries@[i])]
        } else {
            Seq::empty()
        }) + l0_items(t, base, i + 1, e)
    }
}

/// Mappings below entry `i` of a middle-level table for addresses from `base`.
pub open spec fn l1_here(t: L1Table, base: int, i: int, start: int, end: int) -> Seq<Item> {
    let raw = t.entries@[i];
    let sub = base + i * 0x20_0000;
    if maps(raw) {
        seq![item(sub, raw)]
    } else {
        match t.children@[i] {
            Some(c) => l0_items(
                c,
                sub,
                first_index(sub, 4096, start),
                last_index(sub, 0x20_0000, 4096, end),
            ),
            None => Seq::empty(),
        }
    }
}

pub open spec fn l1_items(t: L1Table, base: int, i: int, e: int, start: int, end: int) -> Seq<Item>
    decreases e - i + 1,
{
    if i > e {
        Seq::empty()
    } else {
        l1_here(t, base, i, start, end) + l1_items(t, base, i + 1, e, start, end)
    }
}

/// Mappings below entry `i` of the root.
pub open spec fn root_here(t: RootTable, i: int, start: int, end: int) -> Seq<Item> {
    let raw = t.entries@[i];
    let sub = i * 0x4000_0000;
    if maps(raw) {
        seq![item(sub, raw)]
    } else {
        match t.children@[i] {
            Some(c) => l1_items(
                c,
                sub,
                first_index(sub, 0x20_0000, start),
                last_index(sub, 0x4000_0000, 0x20_0000, end),
                start,
                end,
            ),
            None => Seq::empty(),
        }
    }
}

pub open spec fn root_items(t: RootTable, i: int, e: int, start: int, end: int) -> Seq<Item>
    decreases e - i + 1,
{
    if i > e {
        Seq::empty()
    } else {
        root_here(t, i, start, end) + root_items(t, i + 1, e, start, end)
    }
}

/// All mappings, large pages among them, that reach into `[start, end)`, in
/// order.
pub open spec fn range_items(t: RootTable, start: int, end: int) -> Seq<Item> {
    if start >= end {
        Seq::empty()
    } else {
        root_items(t, start / 0x4000_0000 % 512, (end - 1) / 0x4000_0000 % 512, start, end)
    }
}

/// A walk through the mappings of `[start_va, end_va)`.
///
/// For each level the index of the current entry and of the last one are kept;
/// `depth` is the level at which the walk stands.  Subtrees without a table are
/// skipped as a whole.
pub struct PmapRange {
    pub start_va: u64,
    pub end_va: u64,
    pub cur: Vec<usize>,
    pub last: Vec<usize>,
    pub depth: usize,
}

impl PmapRange {
    /// Address of the current root entry.
    pub open spec fn base0(&self) -> int {
        self.cur@[0] * 0x4000_0000
    }

    /// Address of the current middle-level entry.
    pub open spec fn base1(&self) -> int {
        self.base0() + self.cur@[1] * 0x20_0000
    }

    /// The walk stands in tables that exist.
    pub open spec fn at(&self, root: &RootTable) -> bool {
        &&& root.wf()
        &&& self.cur@.len() == 3
        &&& self.last@.len() == 3
        &&& self.depth <= 2
        &&& self.end_va <= 0x80_0000_0000
        &&& self.last@[0] < ENTRIES
        &&& self.cur@[0] <= ENTRIES
        &&& self.depth >= 1 ==> {
            &&& self.cur@[0] <= self.last@[0]
            &&& root.children@[self.cur@[0] as int] is Some
            &&& !maps(root.entries@[self.cur@[0] as int])
            &&& self.last@[1] < ENTRIES
            &&& self.cur@[1] <= ENTRIES
        }
        &&& self.depth >= 2 ==> {
            &&& self.cur@[1] <= self.last@[1]
            &&& self.l1(root).children@[self.cur@[1] as int] is Some
            &&& !maps(self.l1(root).entries@[self.cur@[1] as int])
            &&& self.last@[2] < ENTRIES
            &&& self.cur@[2] <= ENTRIES
        }
    }

    /// The middle-level table the walk stands in.
    pub open spec fn l1(&self, root: &RootTable) -> L1Table {
        root.children@[self.cur@[0] as int]->0
    }

    /// The last-level table the walk stands in.
    pub open spec fn l0(&self, root: &RootTable) -> L0Table {
        self.l1(root).children@[self.cur@[1] as int]->0
    }

    /// The mappings still to come.
    pub open spec fn remaining(&self, root: &RootTable) -> Seq<Item> {
        let s = self.start_va as int;
        let e = self.end_va as int;
        let last0 = self.last@[0] as int;
        if s >= e {
            Seq::empty()
        } else if self.depth == 0 {
            root_items(*root, self.cur@[0] as int, last0, s, e)
        } else if self.depth == 1 {
            l1_items(
                self.l1(root),
                self.base0(),
                self.cur@[1] as int,
                self.last@[1] as int,
                s,
                e,
            ) + root_items(*root, self.cur@[0] + 1, last0, s, e)
        } else {
            l0_items(self.l0(root), self.base1(), self.cur@[2] as int, self.last@[2] as int) + (
            l1_items(self.l1(root), self.base0(), self.cur@[1] + 1, self.last@[1] as int, s, e)
                + root_items(*root, self.cur@[0] + 1, last0, s, e))
        }
    }

    /// Start at the first entry of the root that the range reaches.
    pub fn new(root: &RootTable, start_va: u64, end_va: u64) -> (r: Self)
        requires
            root.wf(),
            end_va <= 0x80_0000_0000,
        ensures
            r.at(root),
            r.start_va == start_va,
            r.end_va == end_va,
            r.remaining(root) == range_items(*root, start_va as int, end_va as int),
    {
        let mut cur: Vec<usize> = Vec::new();
        let mut last: Vec<usize> = Vec::new();
        if start_va < end_va {
            cur.push((start_va / 0x4000_0000 % 512) as usize);
            last.push(((end_va - 1) / 0x4000_0000 % 512) as usize);
        } else {
            cur.push(0);
            last.push(0);
        }
        cur.push(0);
        last.push(0);
        cur.push(0);
        last.push(0);
        PmapRange { start_va, end_va, cur, last, depth: 0 }
    }

    /// Base-two logarithm of the bytes mapped by one entry at `depth`.
    pub fn shift_for(depth: usize) -> (r: usize)
        requires
            depth <= 2,
        ensures
            r == 12 + 9 * (2 - depth),
    {
        12 + 9 * (2 - depth)
    }

    /// The address of the current entry at `depth`.
    pub fn reconstruct_va(&self, depth: usize) -> (r: u64)
        requires
            self.cur@.len() == 3,
            depth <= 2,
            forall|d: int| 0 <= d <= depth ==> (#[trigger] self.cur@[d]) < ENTRIES,
        ensures
            r == self.cur@[0] * 0x4000_0000 + (if depth >= 1 {
                self.cur@[1] * 0x20_0000
            } else {
                0
            }) + (if depth >= 2 {
                self.cur@[2] * 4096
            } else {
                0
            }),
            r < 0x80_0000_0000,
    {
        assert(self.cur@[0] < ENTRIES);
        let mut va: u64 = self.cur[0] as u64 * 0x4000_0000;
        if depth >= 1 {
            assert(self.cur@[1] < ENTRIES);
            va = va + self.cur[1] as u64 * 0x20_0000;
        }
        if depth >= 2 {
            assert(self.cur@[2] < ENTRIES);
            va = va + self.cur[2] as u64 * 4096;
        }
        va
    }

    /// The entries of the table below the current entry at `parent_depth` that
    /// the range reaches: the first and the last.
    pub fn child_index_range(&self, parent_depth: usize) -> (r: (usize, usize))
        requires
            self.cur@.len() == 3,
            parent_depth <= 1,
            self.cur@[0] < ENTRIES,
            parent_depth == 1 ==> self.cur@[1] < ENTRIES,
            0 < self.end_va <= 0x80_0000_0000,
        ensures
            ({
                let sub = if parent_depth == 0 {
                    self.base0()
                } else {
                    self.base1()
                };
                let size = span(parent_depth as int);
                let unit = span(parent_depth + 1);
                &&& r.0 == first_index(sub, unit, self.start_va as int)
                &&& r.1 == last_index(sub, size, unit, self.end_va as int)
            }),
            r.0 < ENTRIES,
            r.1 < ENTRIES,
    {
        let subtree_va = self.reconstruct_va(parent_depth);
        let clipped_start: u64 = if self.start_va > subtree_va {
            self.start_va
        } else {
            subtree_va
        };
        let size: u64 = if parent_depth == 0 {
            0x4000_0000
        } else {
            0x20_0000
        };
        let subtree_end: u64 = subtree_va + size;
        let clipped_end: u64 = if self.end_va < subtree_end {
            self.end_va
        } else {
            subtree_end
        };
        if parent_depth == 0 {
            (
                (clipped_start / 0x20_0000 % 512) as usize,
                ((clipped_end - 1) / 0x20_0000 % 512) as usize,
            )
        } else {
            ((clipped_start / 4096 % 512) as usize, ((clipped_end - 1) / 4096 % 512) as usize)
        }
    }

    /// The next mapping.
    #[verifier::rlimit(60)]
    pub fn next(&mut self, root: &RootTable) -> (r: Option<Item>)
        requires
            old(self).at(root),
        ensures
            final(self).at(root),
            final(self).start_va == old(self).start_va,
            final(self).end_va == old(self).end_va,
            match r {
                None => old(self).remaining(root).len() == 0 && final(self).remaining(root).len()
                    == 0,
                Some(x) => {
                    &&& old(self).remaining(root).len() > 0
                    &&& x == old(self).remaining(root)[0]
                    &&& final(self).remaining(root) == old(self).remaining(root).drop_first()
                },
            },
    {
        if self.start_va >= self.end_va {
            return None;
        }
        let ghost all = self.remaining(root);
        loop
            invariant
                self.at(root),
                self.start_va == old(self).start_va,
                self.end_va == old(self).end_va,
                self.start_va < self.end_va,
                self.remaining(root) == all,
                all == old(self).remaining(root),
            decreases
                    600 - self.cur@[0],
                    if self.depth >= 1 {
                        600 - self.cur@[1]
                    } else {
                        700int
                    },
                    if self.depth >= 2 {
                        600 - self.cur@[2]
                    } else {
                        700int
                    },
        {
            let ghost before = *self;
            let d = self.depth;
            let current_idx = self.cur[d];
            if current_idx > self.last[d] {
                if d == 0 {
                    return None;
                }
                self.depth = d - 1;
                let up = self.cur[d - 1];
                self.cur.set(d - 1, up + 1);
                proof {
                    if d == 1 {
                        assert(l1_items(
                            before.l1(root),
                            before.base0(),
                            before.cur@[1] as int,
                            before.last@[1] as int,
                            before.start_va as int,
                            before.end_va as int,
                        ) =~= Seq::empty());
                    }
                    assert(self.remaining(root) =~= all);
                }
                continue ;
            }
            let raw = if d == 0 {
                root.entries[current_idx]
            } else {
                match &root.children[self.cur[0]] {
                    None => 0,
                    Some(l1) => {
                        assert(*l1 == self.l1(root));
                        if d == 1 {
                            l1.entries[current_idx]
                        } else {
                            match &l1.children[self.cur[1]] {
                                None => 0,
                                Some(l0) => {
                                    assert(*l0 == self.l0(root));
                                    l0.entries[current_idx]
                                },
                            }
                        }
                    },
                }
            };
            let ghost s = self.start_va as int;
            let ghost e = self.end_va as int;
            proof {
                if d == 0 {
                    assert(raw == root.entries@[current_idx as int]);
                    assert(links(raw, l1_pa(root.children@[current_idx as int])));
                } else if d == 1 {
                    assert(raw == self.l1(root).entries@[current_idx as int]);
                    assert(links(raw, l0_pa(self.l1(root).children@[current_idx as int])));
                } else {
                    assert(raw == self.l0(root).entries@[current_idx as int]);
                }
            }
            if pte_is_valid(raw) && pte_is_leaf(raw) {
                let va = self.reconstruct_va(d);
                self.cur.set(d, current_idx + 1);
                let found = (VirtAddr::new(va), PhysAddr::new(pte_pa(raw)), pte_flags(raw));
                proof {
                    assert(found == item(va as int, raw));
                    assert(all =~= seq![found] + self.remaining(root));
                    assert(self.remaining(root) =~= all.drop_first());
                }
                return Some(found);
            }
            if pte_is_valid(raw) && d < 2 {
                let (child_start, child_end) = self.child_index_range(d);
                self.depth = d + 1;
                self.cur.set(d + 1, child_start);
                self.last.set(d + 1, child_end);
                proof {
                    if d == 0 {
                        assert(self.l1(root).wf());
                        assert(self.remaining(root) =~= root_here(
                            *root,
                            current_idx as int,
                            s,
                            e,
                        ) + root_items(*root, current_idx + 1, self.last@[0] as int, s, e));
                    } else {
                        assert(self.l0(root).wf());
                        assert(self.remaining(root) =~= (l1_here(
                            self.l1(root),
                            self.base0(),
                            current_idx as int,
                            s,
                            e,
                        ) + l1_items(
                            self.l1(root),
                            self.base0(),
                            current_idx + 1,
                            self.last@[1] as int,
                            s,
                            e,
                        )) + root_items(*root, self.cur@[0] + 1, self.last@[0] as int, s, e));
                    }
                    assert(self.remaining(root) =~= all);
                }
                continue ;
            }
            self.cur.set(d, current_idx + 1);
            assert(self.remaining(root) =~= all);
        }
    }
}

/// All mappings that reach into `[start_va, end_va)`, in order.
pub fn range(root: &RootTable, start_va: u64, end_va: u64) -> (r: Vec<Item>)
    requires
        root.wf(),
        end_va <= 0x80_0000_0000,
    ensures
        r@ == range_items(*root, start_va as int, end_va as int),
{
    let mut walker = PmapRange::new(root, start_va, end_va);
    let mut r: Vec<Item> = Vec::new();
    let mut more = true;
    while more
        invariant
            walker.at(root),
            range_items(*root, start_va as int, end_va as int) == r@ + walker.remaining(root),
            !more ==> walker.remaining(root).len() == 0,
        decreases walker.remaining(root).len() + if more { 1int } else { 0 },
    {
        let ghost rest = walker.remaining(root);
        match walker.next(root) {
            Some(x) => {
                assert(r@ + rest =~= r@.push(x) + rest.drop_first());
                r.push(x);
            },
            None => {
                more = false;
            },
        }
    }
    assert(r@ + walker.remaining(root) =~= r@);
    r
}

proof fn lemma_l0_has(t: L0Table, base: int, i: int, e: int, x: int)
    requires
        i <= x <= e,
        maps(t.entries@[x]),
    ensures
        l0_items(t, base, i, e).contains(item(base + x * 4096, t.entries@[x])),
    decreases e - i + 1,
{
    let it = item(base + x * 4096, t.entries@[x]);
    let all = l0_items(t, base, i, e);
    let rest = l0_items(t, base, i + 1, e);
    if i == x {
        assert(all[0] == it);
    } else {
        lemma_l0_has(t, base, i + 1, e, x);
        let j = choose|j: int| 0 <= j < rest.len() && rest[j] == it;
        assert(all[all.len() - rest.len() + j] == it);
    }
}

proof fn lemma_l1_has(t: L1Table, base: int, i: int, e: int, start: int, end: int, x: int, it: Item)
    requires
        i <= x <= e,
        l1_here(t, base, x, start, end).contains(it),
    ensures
        l1_items(t, base, i, e, start, end).contains(it),
    decreases e - i + 1,
{
    let all = l1_items(t, base, i, e, start, end);
    let here = l1_here(t, base, i, start, end);
    let rest = l1_items(t, base, i + 1, e, start, end);
    if i == x {
        let j = choose|j: int| 0 <= j < here.len() && here[j] == it;
        assert(all[j] == it);
    } else {
        lemma_l1_has(t, base, i + 1, e, start, end, x, it);
        let j = choose|j: int| 0 <= j < rest.len() && rest[j] == it;
        assert(all[here.len() + j] == it);
    }
}

proof fn lemma_root_has(t: RootTable, i: int, e: int, start: int, end: int, x: int, it: Item)
    requires
        i <= x <= e,
        root_here(t, x, start, end).contains(it),
    ensures
        root_items(t, i, e, start, end).contains(it),
    decreases e - i + 1,
{
    let all = root_items(t, i, e, start, end);
    let here = root_here(t, i, start, end);
    let rest = root_items(t, i + 1, e, start, end);
    if i == x {
        let j = choose|j: int| 0 <= j < here.len() && here[j] == it;
        assert(all[j] == it);
    } else {
        lemma_root_has(t, i + 1, e, start, end, x, it);
        let j = choose|j: int| 0 <= j < rest.len() && rest[j] == it;
        assert(all[here.len() + j] == it);
    }
}

/// Within one block of five hundred and twelve units a lower address has no higher index.
proof fn lemma_index_order(a: int, b: int, unit: int)
    requires
        0 <= a <= b,
        unit == 4096 || unit == 0x20_0000,
        a / (unit * 512) == b / (unit * 512),
    ensures
        a / unit % 512 <= b / unit % 512,
{
    if unit == 4096 {
        assert(a / 0x20_0000 == (a / 4096) / 512);
        assert(b / 0x20_0000 == (b / 4096) / 512);
        assert(a / 4096 <= b / 4096);
    } else {
        assert(a / 0x4000_0000 == (a / 0x20_0000) / 512);
        assert(b / 0x4000_0000 == (b / 0x20_0000) / 512);
        assert(a / 0x20_0000 <= b / 0x20_0000);
    }
}

/// Going through a range meets every page in it that a table of the last level maps, with its address, the
/// address it maps to and its flags.
#[verifier::rlimit(40)]
pub proof fn law_every_mapped_page_is_met(t: RootTable, start: int, end: int, va: int)
    requires
        0 <= start <= va < end <= 0x80_0000_0000,
        va % 4096 == 0,
        t.entry_at(va) % 2 == 1,
        t.entry_at(va) / 2 % 8 != 0,
        !maps(t.entries@[va / 0x4000_0000]),
        t.children@[va / 0x4000_0000] matches Some(c) && !maps(c.entries@[va / 0x20_0000 % 512]),
    ensures
        range_items(t, start, end).contains(
            (VirtAddr(va as u64), PhysAddr(addr_of(t.entry_at(va))), flags_of(t.entry_at(va))),
        ),
{
    let x2 = va / 0x4000_0000;
    let x1 = va / 0x20_0000 % 512;
    let x0 = va / 4096 % 512;
    let raw = t.entry_at(va);
    let it = item(va, raw);
    assert(x2 % 512 == x2);
    let c1 = t.children@[x2]->0;
    let c0 = c1.children@[x1]->0;
    let sub1 = x2 * 0x4000_0000;
    let sub0 = sub1 + x1 * 0x20_0000;
    assert(c1.children@[x1] is Some);
    assert(va / 0x20_0000 == x2 * 512 + x1) by {
        assert(va / 0x4000_0000 == (va / 0x20_0000) / 512);
    }
    assert(va / 4096 == (va / 0x20_0000) * 512 + x0) by {
        assert(va / 0x20_0000 == (va / 4096) / 512);
    }
    assert(va == sub0 + x0 * 4096);
    assert(sub0 <= va < sub0 + 0x20_0000);
    assert(sub1 <= va < sub1 + 0x4000_0000);
    let lo0 = if start > sub0 {
        start
    } else {
        sub0
    };
    let hi0 = (if end < sub0 + 0x20_0000 {
        end
    } else {
        sub0 + 0x20_0000
    }) - 1;
    assert(sub0 == (x2 * 512 + x1) * 0x20_0000);
    assert(lo0 / 0x20_0000 == va / 0x20_0000);
    assert(hi0 / 0x20_0000 == va / 0x20_0000);
    lemma_index_order(lo0, va, 4096);
    lemma_index_order(va, hi0, 4096);
    lemma_l0_has(
        c0,
        sub0,
        first_index(sub0, 4096, start),
        last_index(sub0, 0x20_0000, 4096, end),
        x0,
    );
    assert(l1_here(c1, sub1, x1, start, end).contains(it));
    let lo1 = if start > sub1 {
        start
    } else {
        sub1
    };
    let hi1 = (if end < sub1 + 0x4000_0000 {
        end
    } else {
        sub1 + 0x4000_0000
    }) - 1;
    assert(lo1 / 0x4000_0000 == x2);
    assert(hi1 / 0x4000_0000 == x2);
    lemma_index_order(lo1, va, 0x20_0000);
    lemma_index_order(va, hi1, 0x20_0000);
    lemma_l1_has(
        c1,
        sub1,
        first_index(sub1, 0x20_0000, start),
        last_index(sub1, 0x4000_0000, 0x20_0000, end),
        start,
        end,
        x1,
        it,
    );
    assert(root_here(t, x2, start, end).contains(it));
    assert(start / 0x4000_0000 % 512 <= x2);
    assert(x2 <= (end - 1) / 0x4000_0000 % 512);
    lemma_root_has(
        t,
        start / 0x4000_0000 % 512,
        (end - 1) / 0x4000_0000 % 512,
        start,
        end,
        x2,
        it,
    );
}

} // verus!
