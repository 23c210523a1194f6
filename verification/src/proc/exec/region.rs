//! Parts of a program, placed in memory.
use vstd::prelude::*;
use crate::hal::addr::{page_ceil, page_floor, VirtAddr, PAGE_SIZE};
use crate::mm::vm::map::perm::MapPerm;
use crate::proc::exec::elf::{ElfParseResult, ElfSegment};

verus! {

/// Protection for ELF flags: always accessible to the user.
pub open spec fn perm_for(flags: u32) -> MapPerm {
    MapPerm(
        (8 + (if flags & 4 != 0 {
            1int
        } else {
            0
        }) + (if flags & 2 != 0 {
            2int
        } else {
            0
        }) + (if flags & 1 != 0 {
            4int
        } else {
            0
        })) as u8,
    )
}

/// Protection for ELF flags.
pub fn elf_flags_to_perm(flags: u32) -> (r: MapPerm)
    ensures
        r == perm_for(flags),
{
    assert(8u8 | 1 == 9 && 8u8 | 2 == 10 && 9u8 | 2 == 11 && 8u8 | 4 == 12 && 9u8 | 4 == 13 && 10u8
        | 4 == 14 && 11u8 | 4 == 15) by (bit_vector);
    let mut prot = MapPerm::U();
    if flags & 4 != 0 {
        prot = prot | MapPerm::R();
    }
    if flags & 2 != 0 {
        prot = prot | MapPerm::W();
    }
    if flags & 1 != 0 {
        prot = prot | MapPerm::X();
    }
    prot
}

/// A part of a program at its final place.
#[derive(Debug, Clone, Copy, PartialEq, Eq, Structural)]
pub struct MemoryRegion {
    pub vaddr: u64,
    pub memsz: u64,
    pub filesz: u64,
    pub offset: u64,
    pub prot: MapPerm,
}

/// The part moved by `base`.
pub open spec fn placed(s: ElfSegment, base: int) -> MemoryRegion {
    MemoryRegion {
        vaddr: (s.vaddr + base) as u64,
        memsz: s.memsz,
        filesz: s.filesz,
        offset: s.offset,
        prot: perm_for(s.flags),
    }
}

/// Addresses and offsets of the pages of the part, moved by `base`, do not overflow; a part of no
/// size has none.
pub open spec fn segment_fits(s: ElfSegment, base: int) -> bool {
    s.memsz > 0 ==> {
        &&& s.vaddr + base + s.memsz + 4095 <= u64::MAX
        &&& s.vaddr + base + s.filesz <= u64::MAX
        &&& page_floor(s.offset as int) + (page_ceil(s.vaddr + base + s.memsz) - page_floor(
            s.vaddr + base,
        )) - 4096 <= u64::MAX
    }
}

/// All parts fit, and so does the entry point.
pub open spec fn program_fits(p: &ElfParseResult, base: int) -> bool {
    &&& forall|i: int| 0 <= i < p.segments@.len() ==> segment_fits(#[trigger] p.segments@[i], base)
    &&& p.entry + base <= u64::MAX
}

/// Whether addresses and offsets of a program moved by `base` do not overflow.
pub fn check_program(p: &ElfParseResult, base: u64) -> (r: bool)
    ensures
        r == program_fits(p, base as int),
{
    if p.entry > u64::MAX - base {
        return false;
    }
    let mut i: usize = 0;
    while i < p.segments.len()
        invariant
            i <= p.segments@.len(),
            forall|j: int|
                0 <= j < i ==> segment_fits(#[trigger] p.segments@[j], base as int),
        decreases p.segments@.len() - i,
    {
        let s = p.segments[i];
        if s.memsz > 0 {
            let start: u128 = s.vaddr as u128 + base as u128;
            let first: u128 = start / 4096 * 4096;
            let end: u128 = (start + s.memsz as u128 + 4095) / 4096 * 4096;
            let last: u128 = s.offset as u128 / 4096 * 4096 + (end - first) - 4096;
            if start + s.memsz as u128 + 4095 > u64::MAX as u128 || start + s.filesz as u128
                > u64::MAX as u128 || last > u64::MAX as u128 {
                assert(!segment_fits(p.segments@[i as int], base as int));
                return false;
            }
        }
        i += 1;
    }
    true
}

impl MemoryRegion {
    /// The end of the last page does not overflow.
    pub open spec fn end_fits(self) -> bool {
        self.vaddr + self.memsz + 4095 <= u64::MAX
    }

    /// Neither the end of the last page nor the share of the file overflows.
    pub open spec fn fits(self) -> bool {
        &&& self.end_fits()
        &&& self.offset as int % 4096 + self.filesz <= u64::MAX
    }

    /// The part at its final place.
    pub fn from_segment(seg: &ElfSegment, load_base: u64) -> (r: Self)
        requires
            seg.vaddr + load_base <= u64::MAX,
        ensures
            r == placed(*seg, load_base as int),
    {
        MemoryRegion {
            vaddr: seg.vaddr + load_base,
            memsz: seg.memsz,
            filesz: seg.filesz,
            offset: seg.offset,
            prot: elf_flags_to_perm(seg.flags),
        }
    }

    /// Start of the first page.
    pub fn va_start(&self) -> (r: VirtAddr)
        ensures
            r.0 == page_floor(self.vaddr as int),
    {
        VirtAddr::new(self.vaddr).page_align_down()
    }

    /// End of the last page.
    pub fn va_end(&self) -> (r: VirtAddr)
        requires
            self.end_fits(),
        ensures
            r.0 == page_ceil(self.vaddr + self.memsz),
    {
        VirtAddr::new(self.vaddr + self.memsz + (PAGE_SIZE - 1)).page_align_down()
    }

    /// Number of pages.
    pub fn page_count(&self) -> (r: u64)
        requires
            self.end_fits(),
        ensures
            r == (page_ceil(self.vaddr + self.memsz) - page_floor(self.vaddr as int)) / 4096,
    {
        (self.va_end().as_u64() - self.va_start().as_u64()) / PAGE_SIZE
    }

    /// Offset into the file of the first page.
    pub fn file_offset_aligned(&self) -> (r: u64)
        ensures
            r == page_floor(self.offset as int),
    {
        self.offset / PAGE_SIZE * PAGE_SIZE
    }

    /// Bytes of the first page before the part.
    pub fn file_prefix(&self) -> (r: u64)
        ensures
            r == self.offset % 4096,
    {
        self.offset % PAGE_SIZE
    }

    /// Bytes from the start of the first page that come from the file.
    pub fn file_backed_bytes(&self) -> (r: u64)
        requires
            self.offset as int % 4096 + self.filesz <= u64::MAX,
        ensures
            r == self.offset % 4096 + self.filesz,
    {
        self.file_prefix() + self.filesz
    }
}

/// A range of addresses and the part of a file behind it.
#[derive(Debug, Clone, Copy, PartialEq, Eq, Structural)]
pub struct FileRegion {
    pub lo: u64,
    pub hi: u64,
    /// Offset into the file.
    pub file_offset: u64,
    /// Bytes from there that come from the file; the rest is zero.
    pub valid: u64,
    pub prot: MapPerm,
}

/// Whether the range comes before one at this address and offset.
pub open spec fn before(r: FileRegion, lo: int, off: int) -> bool {
    r.lo < lo || r.lo == lo && r.file_offset < off
}

/// Ranges by address and offset, each pair once.
pub open spec fn sorted(rs: Seq<FileRegion>) -> bool {
    forall|i: int, j: int|
        0 <= i < j < rs.len() ==> before(
            #[trigger] rs[i],
            (#[trigger] rs[j]).lo as int,
            rs[j].file_offset as int,
        )
}

/// Pages of a program by address and offset.
pub type Pages = Map<(u64, u64), FileRegion>;

/// The pages as a map.
pub open spec fn pages_of(rs: Seq<FileRegion>) -> Pages {
    Map::new(
        |k: (u64, u64)| exists|i: int| #[trigger] at_key(rs, i, k),
        |k: (u64, u64)| rs[choose|i: int| #[trigger] at_key(rs, i, k)],
    )
}

pub open spec fn at_key(rs: Seq<FileRegion>, i: int, k: (u64, u64)) -> bool {
    0 <= i < rs.len() && rs[i].lo == k.0 && rs[i].file_offset == k.1
}

/// The page of a part that starts at `va`.
pub open spec fn page_of(r: MemoryRegion, va: int) -> FileRegion {
    let file_end = r.vaddr + r.filesz;
    let rest = if file_end > va {
        file_end - va
    } else {
        0
    };
    FileRegion {
        lo: va as u64,
        hi: (va + 4096) as u64,
        file_offset: (page_floor(r.offset as int) + (va - page_floor(r.vaddr as int))) as u64,
        valid: (if rest > 4096 {
            4096
        } else {
            rest
        }) as u64,
        prot: r.prot,
    }
}

/// Two parts on one page: either's access, and the larger share of the file.
pub open spec fn joined(a: FileRegion, b: FileRegion) -> FileRegion {
    FileRegion {
        valid: if b.valid > a.valid {
            b.valid
        } else {
            a.valid
        },
        prot: MapPerm(a.prot.0 | b.prot.0),
        ..a
    }
}

/// One more page.
pub open spec fn with_page_added(m: Pages, p: FileRegion) -> Pages {
    let k = (p.lo, p.file_offset);
    if m.dom().contains(k) {
        m.insert(k, joined(m[k], p))
    } else {
        m.insert(k, p)
    }
}

/// The pages of a part from `va` on.
pub open spec fn with_pages(m: Pages, r: MemoryRegion, va: int, end: int) -> Pages
    decreases (if va < end { end - va } else { 0 }),
{
    if va >= end {
        m
    } else {
        with_pages(with_page_added(m, page_of(r, va)), r, va + 4096, end)
    }
}

/// The pages of the first `n` parts, placed at `base`; parts of no size have none.
pub open spec fn program_pages(ss: Seq<ElfSegment>, n: int, base: int) -> Pages
    decreases n,
{
    if n <= 0 {
        Map::empty()
    } else {
        let m = program_pages(ss, n - 1, base);
        let r = placed(ss[n - 1], base);
        if ss[n - 1].memsz == 0 {
            m
        } else {
            with_pages(m, r, page_floor(r.vaddr as int), page_ceil(r.vaddr + r.memsz))
        }
    }
}

proof fn lemma_pages_of(rs: Seq<FileRegion>, i: int)
    requires
        sorted(rs),
        0 <= i < rs.len(),
    ensures
        pages_of(rs).dom().contains((rs[i].lo, rs[i].file_offset)),
        pages_of(rs)[(rs[i].lo, rs[i].file_offset)] == rs[i],
{
    let k = (rs[i].lo, rs[i].file_offset);
    assert(at_key(rs, i, k));
    let j = choose|j: int| #[trigger] at_key(rs, j, k);
    if j < i {
        assert(before(rs[j], rs[i].lo as int, rs[i].file_offset as int));
    } else if i < j {
        assert(before(rs[i], rs[j].lo as int, rs[j].file_offset as int));
    }
}

/// How many ranges come before the page.
pub open spec fn key_rank(rs: Seq<FileRegion>, p: FileRegion) -> int
    decreases rs.len(),
{
    if rs.len() > 0 && before(rs[0], p.lo as int, p.file_offset as int) {
        1 + key_rank(rs.drop_first(), p)
    } else {
        0
    }
}

/// The list with one more page, in its place, joined with one that is there.
pub open spec fn listed_page(rs: Seq<FileRegion>, p: FileRegion) -> Seq<FileRegion> {
    let i = key_rank(rs, p);
    if i < rs.len() && rs[i].lo == p.lo && rs[i].file_offset == p.file_offset {
        rs.update(i, joined(rs[i], p))
    } else {
        rs.insert(i, p)
    }
}

/// The list with the pages of a part from `va` on.
pub open spec fn listed_pages(rs: Seq<FileRegion>, r: MemoryRegion, va: int, end: int) -> Seq<
    FileRegion,
>
    decreases (if va < end { end - va } else { 0 }),
{
    if va >= end {
        rs
    } else {
        listed_pages(listed_page(rs, page_of(r, va)), r, va + 4096, end)
    }
}

/// The list of the pages of the first `n` parts, placed at `base`.
pub open spec fn page_list(ss: Seq<ElfSegment>, n: int, base: int) -> Seq<FileRegion>
    decreases n,
{
    if n <= 0 {
        Seq::empty()
    } else {
        let rs = page_list(ss, n - 1, base);
        let r = placed(ss[n - 1], base);
        if ss[n - 1].memsz == 0 {
            rs
        } else {
            listed_pages(rs, r, page_floor(r.vaddr as int), page_ceil(r.vaddr + r.memsz))
        }
    }
}

/// A page that can be mapped.
pub open spec fn page_ok(r: FileRegion) -> bool {
    &&& r.lo as int % 4096 == 0
    &&& r.hi == r.lo + 4096
    &&& r.hi + 4095 <= u64::MAX
}

/// Put a page in its place, joined with one that is there.
fn add_page(rs: &mut Vec<FileRegion>, p: FileRegion)
    requires
        sorted(old(rs)@),
        forall|i: int| 0 <= i < old(rs)@.len() ==> page_ok(#[trigger] old(rs)@[i]),
        page_ok(p),
    ensures
        sorted(final(rs)@),
        forall|i: int| 0 <= i < final(rs)@.len() ==> page_ok(#[trigger] final(rs)@[i]),
        pages_of(final(rs)@) == with_page_added(pages_of(old(rs)@), p),
        final(rs)@ == listed_page(old(rs)@, p),
{
    let ghost rs0 = rs@;
    assert(rs0.skip(0) =~= rs0);
    let ghost k = (p.lo, p.file_offset);
    let mut i: usize = 0;
    while i < rs.len() && (rs[i].lo < p.lo || rs[i].lo == p.lo && rs[i].file_offset < p.file_offset)
        invariant
            i <= rs@.len(),
            rs@ == rs0,
            forall|j: int|
                0 <= j < i ==> before(#[trigger] rs0[j], p.lo as int, p.file_offset as int),
            key_rank(rs0, p) == i + key_rank(rs0.skip(i as int), p),
        decreases rs@.len() - i,
    {
        assert(rs0.skip(i as int).drop_first() =~= rs0.skip(i + 1));
        i += 1;
    }
    assert(key_rank(rs0, p) == i);
    if i < rs.len() && rs[i].lo == p.lo && rs[i].file_offset == p.file_offset {
        let old_page = rs[i];
        let mut now = old_page;
        now.prot = old_page.prot | p.prot;
        if p.valid > old_page.valid {
            now.valid = p.valid;
        }
        rs[i] = now;
        proof {
            lemma_pages_of(rs0, i as int);
            assert(now == joined(rs0[i as int], p));
            assert forall|a: int, b: int| 0 <= a < b < rs@.len() implies before(
                #[trigger] rs@[a],
                (#[trigger] rs@[b]).lo as int,
                rs@[b].file_offset as int,
            ) by {
                assert(before(rs0[a], rs0[b].lo as int, rs0[b].file_offset as int));
            }
            lemma_replaced(rs0, rs@, i as int, now);
        }
    } else {
        proof {
            assert(!pages_of(rs0).dom().contains(k)) by {
                if pages_of(rs0).dom().contains(k) {
                    let j = choose|j: int| #[trigger] at_key(rs0, j, k);
                    if j > i {
                        assert(before(rs0[i as int], rs0[j].lo as int, rs0[j].file_offset as int));
                    }
                }
            }
        }
        rs.insert(i, p);
        proof {
            lemma_inserted(rs0, rs@, i as int, p);
            assert forall|j: int| 0 <= j < rs@.len() implies page_ok(#[trigger] rs@[j]) by {
                if j < i {
                    assert(rs@[j] == rs0[j]);
                } else if j > i {
                    assert(rs@[j] == rs0[j - 1]);
                }
            }
        }
    }
}

proof fn lemma_replaced(rs0: Seq<FileRegion>, rs: Seq<FileRegion>, i: int, p: FileRegion)
    requires
        sorted(rs0),
        sorted(rs),
        0 <= i < rs0.len(),
        rs == rs0.update(i, p),
        p.lo == rs0[i].lo,
        p.file_offset == rs0[i].file_offset,
    ensures
        pages_of(rs) == pages_of(rs0).insert((p.lo, p.file_offset), p),
{
    let k0 = (p.lo, p.file_offset);
    let m = pages_of(rs0).insert(k0, p);
    assert forall|k: (u64, u64)| #[trigger] pages_of(rs).dom().contains(k) == m.dom().contains(k) by {
        if pages_of(rs).dom().contains(k) {
            let j = choose|j: int| #[trigger] at_key(rs, j, k);
            assert(at_key(rs0, j, k));
        }
        if pages_of(rs0).dom().contains(k) {
            let j = choose|j: int| #[trigger] at_key(rs0, j, k);
            assert(at_key(rs, j, k));
        }
        if k == k0 {
            assert(at_key(rs, i, k));
        }
    }
    assert forall|k: (u64, u64)| #[trigger] pages_of(rs).dom().contains(k) implies pages_of(rs)[k]
        == m[k] by {
        let j = choose|j: int| #[trigger] at_key(rs, j, k);
        lemma_pages_of(rs, j);
        lemma_pages_of(rs0, j);
        if j != i {
            if i < j {
                assert(before(rs[i], rs[j].lo as int, rs[j].file_offset as int));
            } else {
                assert(before(rs[j], rs[i].lo as int, rs[i].file_offset as int));
            }
        }
    }
    assert(pages_of(rs) =~= m);
}

proof fn lemma_inserted(rs0: Seq<FileRegion>, rs: Seq<FileRegion>, i: int, p: FileRegion)
    requires
        sorted(rs0),
        0 <= i <= rs0.len(),
        rs == rs0.insert(i, p),
        forall|j: int| 0 <= j < i ==> before(#[trigger] rs0[j], p.lo as int, p.file_offset as int),
        i < rs0.len() ==> !before(rs0[i], p.lo as int, p.file_offset as int) && !(rs0[i].lo == p.lo
            && rs0[i].file_offset == p.file_offset),
    ensures
        sorted(rs),
        pages_of(rs) == pages_of(rs0).insert((p.lo, p.file_offset), p),
{
    assert forall|j: int| i <= j < rs0.len() implies before(
        p,
        (#[trigger] rs0[j]).lo as int,
        rs0[j].file_offset as int,
    ) by {
        if j > i {
            assert(before(rs0[i], rs0[j].lo as int, rs0[j].file_offset as int));
        }
    }
    assert forall|a: int, b: int| 0 <= a < b < rs.len() implies before(
        #[trigger] rs[a],
        (#[trigger] rs[b]).lo as int,
        rs[b].file_offset as int,
    ) by {
        let x = if a < i {
            a
        } else {
            a - 1
        };
        let y = if b < i {
            b
        } else {
            b - 1
        };
        if a != i {
            assert(rs[a] == rs0[x]);
        }
        if b != i {
            assert(rs[b] == rs0[y]);
        }
        if a != i && b != i {
            assert(before(rs0[x], rs0[y].lo as int, rs0[y].file_offset as int));
        }
    }
    let k0 = (p.lo, p.file_offset);
    let m = pages_of(rs0).insert(k0, p);
    assert forall|k: (u64, u64)| #[trigger] pages_of(rs).dom().contains(k) == m.dom().contains(k) by {
        if pages_of(rs).dom().contains(k) {
            let j = choose|j: int| #[trigger] at_key(rs, j, k);
            if j < i {
                assert(at_key(rs0, j, k));
            } else if j > i {
                assert(at_key(rs0, j - 1, k));
            }
        }
        if pages_of(rs0).dom().contains(k) {
            let j = choose|j: int| #[trigger] at_key(rs0, j, k);
            if j < i {
                assert(at_key(rs, j, k));
            } else {
                assert(at_key(rs, j + 1, k));
            }
        }
        if k == k0 {
            assert(at_key(rs, i, k));
        }
    }
    assert forall|k: (u64, u64)| #[trigger] pages_of(rs).dom().contains(k) implies pages_of(rs)[k]
        == m[k] by {
        let j = choose|j: int| #[trigger] at_key(rs, j, k);
        lemma_pages_of(rs, j);
        if j < i {
            lemma_pages_of(rs0, j);
            assert(before(rs[j], rs[i].lo as int, rs[i].file_offset as int));
        } else if j > i {
            lemma_pages_of(rs0, j - 1);
            assert(before(rs[i], rs[j].lo as int, rs[j].file_offset as int));
        }
    }
    assert(pages_of(rs) =~= m);
}

/// The pages of a program placed at `load_base`, by address and offset.  Parts that share a
/// page of the file there are joined.
pub fn normalize_page_regions(parse: &ElfParseResult, load_base: u64) -> (r: Vec<FileRegion>)
    requires
        program_fits(parse, load_base as int),
    ensures
        sorted(r@),
        forall|i: int| 0 <= i < r@.len() ==> page_ok(#[trigger] r@[i]),
        pages_of(r@) == program_pages(
            parse.segments@,
            parse.segments@.len() as int,
            load_base as int,
        ),
        r@ == page_list(parse.segments@, parse.segments@.len() as int, load_base as int),
{
    let mut pages: Vec<FileRegion> = Vec::new();
    let ghost ss = parse.segments@;
    let ghost base = load_base as int;
    let mut n: usize = 0;
    assert(pages_of(pages@) =~= Map::empty());
    while n < parse.segments.len()
        invariant
            n <= ss.len(),
            ss == parse.segments@,
            base == load_base,
            program_fits(parse, base),
            sorted(pages@),
            forall|i: int| 0 <= i < pages@.len() ==> page_ok(#[trigger] pages@[i]),
            pages_of(pages@) == program_pages(ss, n as int, base),
            pages@ == page_list(ss, n as int, base),
        decreases ss.len() - n,
    {
        let seg = parse.segments[n];
        assert(segment_fits(ss[n as int], base));
        if seg.memsz != 0 {
            let region = MemoryRegion::from_segment(&seg, load_base);
            let start = region.va_start().as_u64();
            let end = region.va_end().as_u64();
            let file_end = region.vaddr + region.filesz;
            let ghost m0 = pages_of(pages@);
            let ghost l0 = pages@;
            let mut va: u64 = start;
            while va < end
                invariant
                    seg.memsz > 0,
                    segment_fits(seg, base),
                    seg.vaddr + base <= u64::MAX,
                    base >= 0,
                    region == placed(seg, base),
                    start == page_floor(region.vaddr as int),
                    end == page_ceil(region.vaddr + region.memsz),
                    file_end == region.vaddr + region.filesz,
                    start <= va <= end,
                    end + 4095 <= u64::MAX,
                    end as int % 4096 == 0,
                    sorted(pages@),
                    forall|i: int| 0 <= i < pages@.len() ==> page_ok(#[trigger] pages@[i]),
                    va as int % 4096 == 0,
                    with_pages(m0, region, start as int, end as int) == with_pages(
                        pages_of(pages@),
                        region,
                        va as int,
                        end as int,
                    ),
                    listed_pages(l0, region, start as int, end as int) == listed_pages(
                        pages@,
                        region,
                        va as int,
                        end as int,
                    ),
                decreases (if va < end { end - va } else { 0 }),
            {
                let rest = if file_end > va {
                    file_end - va
                } else {
                    0
                };
                let valid = if rest > PAGE_SIZE {
                    PAGE_SIZE
                } else {
                    rest
                };
                let p = FileRegion {
                    lo: va,
                    hi: va + PAGE_SIZE,
                    file_offset: region.file_offset_aligned() + (va - start),
                    valid,
                    prot: region.prot,
                };
                assert(p == page_of(region, va as int));
                add_page(&mut pages, p);
                va = va + PAGE_SIZE;
            }
        }
        n += 1;
    }
    pages
}

/// Whether two parts start on the same page of memory and of the file.
pub open spec fn same_place(a: MemoryRegion, b: MemoryRegion) -> bool {
    page_floor(a.vaddr as int) == page_floor(b.vaddr as int) && page_floor(a.offset as int)
        == page_floor(b.offset as int)
}

/// The largest share of the file of the first `n` parts that start where `r` does.
pub open spec fn covered(rs: Seq<MemoryRegion>, n: int, r: MemoryRegion) -> int
    decreases n,
{
    if n <= 0 {
        0
    } else {
        let before = covered(rs, n - 1, r);
        let q = rs[n - 1];
        let own = q.offset as int % 4096 + q.filesz;
        if q.memsz > 0 && same_place(q, r) && own > before {
            own
        } else {
            before
        }
    }
}

/// A part as a whole, with the largest share of the file of those that start where it does.
pub open spec fn whole_region(rs: Seq<MemoryRegion>, r: MemoryRegion) -> FileRegion {
    let c = covered(rs, rs.len() as int, r);
    FileRegion {
        lo: page_floor(r.vaddr as int) as u64,
        hi: page_ceil(r.vaddr + r.memsz) as u64,
        file_offset: page_floor(r.offset as int) as u64,
        valid: (if c > 0 {
            c
        } else {
            r.offset as int % 4096 + r.filesz
        }) as u64,
        prot: r.prot,
    }
}

/// The first `n` parts, each as a whole; those of no size are left out where asked.
pub open spec fn whole_regions(rs: Seq<MemoryRegion>, n: int, skip_empty: bool) -> Seq<FileRegion>
    decreases n,
{
    if n <= 0 {
        Seq::empty()
    } else {
        let before = whole_regions(rs, n - 1, skip_empty);
        if skip_empty && rs[n - 1].memsz == 0 {
            before
        } else {
            before.push(whole_region(rs, rs[n - 1]))
        }
    }
}

/// The largest share of the file of the parts that start where `r` does.
fn merged_file_bytes(rs: &Vec<MemoryRegion>, r: &MemoryRegion) -> (c: u64)
    requires
        forall|i: int| 0 <= i < rs@.len() ==> (#[trigger] rs@[i]).fits(),
    ensures
        c == covered(rs@, rs@.len() as int, *r),
{
    let mut c: u64 = 0;
    let mut i: usize = 0;
    while i < rs.len()
        invariant
            i <= rs@.len(),
            forall|j: int| 0 <= j < rs@.len() ==> (#[trigger] rs@[j]).fits(),
            c == covered(rs@, i as int, *r),
        decreases rs@.len() - i,
    {
        let q = rs[i];
        assert(rs@[i as int].fits());
        if q.memsz > 0 && q.va_start().as_u64() == r.va_start().as_u64() && q.file_offset_aligned()
            == r.file_offset_aligned() {
            let own = q.file_backed_bytes();
            if own > c {
                c = own;
            }
        }
        i += 1;
    }
    c
}

/// The parts of a program, each as a whole.
pub fn segment_regions(rs: &Vec<MemoryRegion>, skip_empty: bool) -> (r: Vec<FileRegion>)
    requires
        forall|i: int| 0 <= i < rs@.len() ==> (#[trigger] rs@[i]).fits(),
    ensures
        r@ == whole_regions(rs@, rs@.len() as int, skip_empty),
{
    let mut r: Vec<FileRegion> = Vec::new();
    let mut i: usize = 0;
    while i < rs.len()
        invariant
            i <= rs@.len(),
            forall|j: int| 0 <= j < rs@.len() ==> (#[trigger] rs@[j]).fits(),
            r@ == whole_regions(rs@, i as int, skip_empty),
        decreases rs@.len() - i,
    {
        let q = rs[i];
        assert(rs@[i as int].fits());
        if !(skip_empty && q.memsz == 0) {
            let c = merged_file_bytes(rs, &q);
            let valid = if c > 0 {
                c
            } else {
                q.file_backed_bytes()
            };
            r.push(
                FileRegion {
                    lo: q.va_start().as_u64(),
                    hi: q.va_end().as_u64(),
                    file_offset: q.file_offset_aligned(),
                    valid,
                    prot: q.prot,
                },
            );
        }
        i += 1;
    }
    r
}

/// Every page of every part is among the pages of the program, with at least the access of
/// the part and its share of the file.
pub proof fn law_pages_cover_parts(ss: Seq<ElfSegment>, n: int, i: int, base: int, va: int)
    requires
        0 <= i < n <= ss.len(),
        ss[i].memsz > 0,
        segment_fits(ss[i], base),
        0 <= base,
        ({
            let r = placed(ss[i], base);
            &&& page_floor(r.vaddr as int) <= va < page_ceil(r.vaddr + r.memsz)
            &&& va % 4096 == 0
        }),
    ensures
        ({
            let m = program_pages(ss, n, base);
            let p = page_of(placed(ss[i], base), va);
            let k = (p.lo, p.file_offset);
            &&& m.dom().contains(k)
            &&& m[k].valid >= p.valid
            &&& m[k].prot.has(p.prot)
            &&& m[k].lo == p.lo
        }),
    decreases n,
{
    let p = page_of(placed(ss[i], base), va);
    let m0 = program_pages(ss, n - 1, base);
    let r = placed(ss[n - 1], base);
    let s = page_floor(r.vaddr as int);
    let e = page_ceil(r.vaddr + r.memsz);
    if i < n - 1 {
        law_pages_cover_parts(ss, n - 1, i, base, va);
        if ss[n - 1].memsz != 0 {
            lemma_pages_grow(m0, r, s, e, p);
        }
    } else {
        lemma_program_keyed(ss, n - 1, base);
        lemma_pages_cover(m0, r, s, e, va);
    }
}

proof fn lemma_pages_cover(m: Pages, r: MemoryRegion, at: int, end: int, va: int)
    requires
        keyed(m),
        at <= va < end,
        at % 4096 == 0,
        va % 4096 == 0,
    ensures
        has_page_of(with_pages(m, r, at, end), page_of(r, va)),
    decreases va - at,
{
    let q = page_of(r, at);
    let m1 = with_page_added(m, q);
    if at == va {
        lemma_page_added(m, q);
        lemma_pages_grow(m1, r, at + 4096, end, q);
    } else {
        assert(keyed(m1));
        lemma_pages_cover(m1, r, at + 4096, end, va);
    }
}

/// A page stays, with what it has.
pub open spec fn has_page_of(m: Pages, p: FileRegion) -> bool {
    let k = (p.lo, p.file_offset);
    m.dom().contains(k) && m[k].valid >= p.valid && m[k].prot.has(p.prot) && m[k].lo == p.lo
}

proof fn lemma_page_kept(m: Pages, q: FileRegion, p: FileRegion)
    requires
        has_page_of(m, p),
    ensures
        has_page_of(with_page_added(m, q), p),
{
    let k = (p.lo, p.file_offset);
    let a = m[k].prot.0;
    let b = q.prot.0;
    let c = p.prot.0;
    assert((a & c == c) ==> ((a | b) & c == c)) by (bit_vector);
}

proof fn lemma_page_added(m: Pages, p: FileRegion)
    requires
        m.dom().contains((p.lo, p.file_offset)) ==> m[(p.lo, p.file_offset)].lo == p.lo,
    ensures
        has_page_of(with_page_added(m, p), p),
{
    let k = (p.lo, p.file_offset);
    let a = m[k].prot.0;
    let c = p.prot.0;
    assert(c & c == c && (a | c) & c == c) by (bit_vector);
}

/// Pages lie where their key says.
pub open spec fn keyed(m: Pages) -> bool {
    forall|k: (u64, u64)| #[trigger] m.dom().contains(k) ==> m[k].lo == k.0 && m[k].file_offset == k.1
}

proof fn lemma_pages_grow(m: Pages, r: MemoryRegion, va: int, end: int, p: FileRegion)
    requires
        has_page_of(m, p),
    ensures
        has_page_of(with_pages(m, r, va, end), p),
    decreases (if va < end { end - va } else { 0 }),
{
    if va < end {
        lemma_page_kept(m, page_of(r, va), p);
        lemma_pages_grow(with_page_added(m, page_of(r, va)), r, va + 4096, end, p);
    }
}

proof fn lemma_keyed(m: Pages, r: MemoryRegion, va: int, end: int)
    requires
        keyed(m),
    ensures
        keyed(with_pages(m, r, va, end)),
    decreases (if va < end { end - va } else { 0 }),
{
    if va < end {
        assert(keyed(with_page_added(m, page_of(r, va))));
        lemma_keyed(with_page_added(m, page_of(r, va)), r, va + 4096, end);
    }
}

proof fn lemma_program_keyed(ss: Seq<ElfSegment>, n: int, base: int)
    ensures
        keyed(program_pages(ss, n, base)),
    decreases n,
{
    if n > 0 {
        lemma_program_keyed(ss, n - 1, base);
        let r = placed(ss[n - 1], base);
        lemma_keyed(
            program_pages(ss, n - 1, base),
            r,
            page_floor(r.vaddr as int),
            page_ceil(r.vaddr + r.memsz),
        );
    }
}

/// Whatever its flags, a part of a program can be used by the user.
pub proof fn law_parts_are_for_users(flags: u32)
    ensures
        perm_for(flags).has(MapPerm::U()),
        perm_for(flags).has(MapPerm::W()) == (flags & 2 != 0),
{
    let p = perm_for(flags).0;
    assert(8 <= p <= 15 ==> p & 8 == 8) by (bit_vector);
    assert(8 <= p <= 15 ==> (p & 2 == 2) == (p == 10 || p == 11 || p == 14 || p == 15)) by (bit_vector);
}

/// Every page of every part that is loaded is among the pages of the program: where the part says,
/// moved by `base`; with the bytes of the file that belong there, as many of them as the part has; and
/// with the right to read, write and execute where the flags of the part give it.
pub proof fn law_program_is_where_it_says(ss: Seq<ElfSegment>, n: int, i: int, base: int, va: int)
    requires
        0 <= i < n <= ss.len(),
        ss[i].memsz > 0,
        segment_fits(ss[i], base),
        0 <= base,
        va % 4096 == 0,
        (ss[i].vaddr + base) / 4096 * 4096 <= va < ss[i].vaddr + base + ss[i].memsz,
    ensures
        ({
            let s = ss[i];
            let start = s.vaddr + base;
            let m = program_pages(ss, n, base);
            let k = (va as u64, (s.offset as int / 4096 * 4096 + (va - start / 4096 * 4096)) as u64);
            let rest = start + s.filesz - va;
            let share: int = if rest <= 0 {
                0
            } else if rest > 4096 {
                4096
            } else {
                rest
            };
            let prot = m[k].prot.0;
            &&& m.dom().contains(k)
            &&& m[k].lo == va
            &&& m[k].file_offset == k.1
            &&& m[k].valid >= share
            &&& prot & 8 == 8
            &&& s.flags & 4 != 0 ==> prot & 1 == 1
            &&& s.flags & 2 != 0 ==> prot & 2 == 2
            &&& s.flags & 1 != 0 ==> prot & 4 == 4
        }),
{
    let s = ss[i];
    let r = placed(s, base);
    let p = page_of(r, va);
    law_pages_cover_parts(ss, n, i, base, va);
    lemma_program_keyed(ss, n, base);
    let m = program_pages(ss, n, base);
    let k = (p.lo, p.file_offset);
    assert(m.dom().contains(k));
    let a = m[k].prot.0;
    let b = p.prot.0;
    assert(8 <= b <= 15);
    assert(a & b == b && 8 <= b <= 15 ==> a & 8 == 8 && ((b == 9 || b == 11 || b == 13 || b == 15) ==> a
        & 1 == 1) && ((b == 10 || b == 11 || b == 14 || b == 15) ==> a & 2 == 2) && ((b >= 12) ==> a & 4
        == 4)) by (bit_vector);
}

/// No page gives more access than some part of the program that lies on it: without such a part that
/// can be written, it cannot be written.
pub proof fn law_read_only_program_stays_so(ss: Seq<ElfSegment>, n: int, base: int, k: (u64, u64))
    requires
        0 <= n <= ss.len(),
        program_pages(ss, n, base).dom().contains(k),
        forall|i: int| 0 <= i < n ==> (#[trigger] ss[i]).flags & 2 == 0,
    ensures
        program_pages(ss, n, base)[k].prot.0 & 2 == 0,
    decreases n,
{
    let m = program_pages(ss, n - 1, base);
    let r = placed(ss[n - 1], base);
    assert forall|x: (u64, u64)| #[trigger] m.dom().contains(x) implies m[x].prot.0 & 2 == 0 by {
        if n - 1 > 0 {
            law_read_only_program_stays_so(ss, n - 1, base, x);
        }
    }
    if ss[n - 1].memsz != 0 {
        let w = r.prot.0;
        assert(ss[n - 1].flags & 2 == 0);
        assert(w == 8 || w == 9 || w == 12 || w == 13 ==> w & 2 == 0) by (bit_vector);
        lemma_stays_read_only(m, r, page_floor(r.vaddr as int), page_ceil(r.vaddr + r.memsz), k);
    }
}

proof fn lemma_stays_read_only(m: Pages, r: MemoryRegion, va: int, end: int, k: (u64, u64))
    requires
        forall|x: (u64, u64)| #[trigger] m.dom().contains(x) ==> m[x].prot.0 & 2 == 0,
        r.prot.0 & 2 == 0,
        with_pages(m, r, va, end).dom().contains(k),
    ensures
        with_pages(m, r, va, end)[k].prot.0 & 2 == 0,
    decreases (if va < end { end - va } else { 0 }),
{
    if va < end {
        let p = page_of(r, va);
        let now = with_page_added(m, p);
        let y = (p.lo, p.file_offset);
        let a = m[y].prot.0;
        let b = r.prot.0;
        assert(a & 2 == 0 && b & 2 == 0 ==> (a | b) & 2 == 0) by (bit_vector);
        assert forall|x: (u64, u64)| #[trigger] now.dom().contains(x) implies now[x].prot.0 & 2 == 0 by {
            if x != y {
                assert(m.dom().contains(x));
            }
        }
        lemma_stays_read_only(now, r, va + 4096, end, k);
    }
}

/// Every page of the program has no more bytes of the file than one of its parts has there: all behind the
/// bytes that a part has from the file is zero.
pub proof fn law_page_has_no_more_than_a_part(ss: Seq<ElfSegment>, n: int, base: int, k: (u64, u64)) -> (i: int)
    requires
        0 <= n <= ss.len(),
        0 <= base,
        forall|j: int| 0 <= j < n ==> segment_fits(#[trigger] ss[j], base),
        program_pages(ss, n, base).dom().contains(k),
    ensures
        0 <= i < n,
        ss[i].memsz > 0,
        ({
            let s = ss[i];
            let start = s.vaddr + base;
            let p = program_pages(ss, n, base)[k];
            let rest = start + s.filesz - p.lo;
            &&& p.lo == k.0 && p.hi == k.0 + 4096
            &&& start / 4096 * 4096 <= p.lo < start + s.memsz
            &&& k.1 == (s.offset as int / 4096 * 4096 + (p.lo - start / 4096 * 4096)) as u64
            &&& p.valid == if rest <= 0 {
                0
            } else if rest > 4096 {
                4096
            } else {
                rest
            }
        }),
    decreases n,
{
    let m = program_pages(ss, n - 1, base);
    let s = ss[n - 1];
    assert(segment_fits(s, base));
    if s.memsz == 0 {
        law_page_has_no_more_than_a_part(ss, n - 1, base, k)
    } else {
        let r = placed(s, base);
        let lo = page_floor(r.vaddr as int);
        let hi = page_ceil(r.vaddr + r.memsz);
        lemma_program_keyed(ss, n - 1, base);
        lemma_of_part(m, r, lo, hi, k);
        let p = program_pages(ss, n, base)[k];
        if m.dom().contains(k) && p.valid == m[k].valid && p.hi == m[k].hi && p.lo == m[k].lo {
            law_page_has_no_more_than_a_part(ss, n - 1, base, k)
        } else {
            if m.dom().contains(k) {
                let _ = law_page_has_no_more_than_a_part(ss, n - 1, base, k);
            }
            let w = choose|w: int|
                #![trigger page_of(r, w)]
                lo <= w < hi && w % 4096 == 0 && p.valid == page_of(r, w).valid && p.lo == w && k.0 == w
                    && k.1 == page_of(r, w).file_offset && (p.hi == w + 4096 || m.dom().contains(k)
                    && p.hi == m[k].hi);
            assert(page_of(r, w).valid == p.valid);
            assert(r.vaddr == s.vaddr + base);
            assert(w < r.vaddr + r.memsz) by {
                assert(hi < r.vaddr + r.memsz + 4096);
                assert(hi % 4096 == 0);
            }
            n - 1
        }
    }
}

proof fn lemma_of_part(m: Pages, r: MemoryRegion, va: int, end: int, k: (u64, u64))
    requires
        keyed(m),
        with_pages(m, r, va, end).dom().contains(k),
        0 <= va,
        va % 4096 == 0,
        va < end ==> page_floor(r.vaddr as int) <= va,
        end == page_ceil(r.vaddr + r.memsz),
        end <= u64::MAX,
    ensures
        ({
            let p = with_pages(m, r, va, end)[k];
            ||| m.dom().contains(k) && p.valid == m[k].valid && p.hi == m[k].hi && p.lo == m[k].lo
            ||| exists|w: int|
                #![trigger page_of(r, w)]
                va <= w < end && w % 4096 == 0 && p.valid == page_of(r, w).valid && p.lo == w && k.0 == w
                    && k.1 == page_of(r, w).file_offset && (p.hi == w + 4096 || m.dom().contains(k) && p.hi
                    == m[k].hi)
        }),
    decreases (if va < end { end - va } else { 0 }),
{
    if va < end {
        let q = page_of(r, va);
        let now = with_page_added(m, q);
        let y = (q.lo, q.file_offset);
        assert(keyed(now));
        lemma_of_part(now, r, va + 4096, end, k);
        let p = with_pages(m, r, va, end)[k];
        assert(p == with_pages(now, r, va + 4096, end)[k]);
        if now.dom().contains(k) && p.valid == now[k].valid && p.hi == now[k].hi && p.lo == now[k].lo {
            if k == y && !(m.dom().contains(k) && p.valid == m[k].valid && p.hi == m[k].hi && p.lo
                == m[k].lo) {
                assert(page_of(r, va).valid == p.valid);
            }
        } else {
            let w = choose|w: int|
                #![trigger page_of(r, w)]
                va + 4096 <= w < end && w % 4096 == 0 && p.valid == page_of(r, w).valid && p.lo == w
                    && k.0 == w && k.1 == page_of(r, w).file_offset && (p.hi == w + 4096
                    || now.dom().contains(k) && p.hi == now[k].hi);
            assert(page_of(r, w).valid == p.valid);
        }
    }
}

} // verus!
