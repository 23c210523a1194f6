//! What a program needs in order to run, from its headers.
use vstd::prelude::*;
use crate::hal::addr::{page_ceil, VirtAddr, PAGE_SIZE};
use crate::mm::vm::map::perm::MapPerm;
use crate::proc::exec::elf::{
    headers_are, interp_of, parse_header_and_phdrs, phdr_vaddr_of, read_text, texts_fit, ElfError, ElfHeader,
    ProgramHeader, PT_INTERP, PT_LOAD, PT_PHDR,
};
use crate::proc::exec::region::{elf_flags_to_perm, perm_for};

pub use crate::proc::exec::region::MemoryRegion;

verus! {

/// What a program needs in order to run.
#[derive(Debug)]
pub struct ExecContext {
    pub load_base: VirtAddr,
    /// Parts to load.
    pub mapped_regions: Vec<MemoryRegion>,
    /// End of the last part, in whole pages: the heap starts here.
    pub brk: VirtAddr,
    pub user_entry: VirtAddr,
    pub interp_entry: Option<VirtAddr>,
    /// Path of the dynamic linker.
    pub interp_path: Option<String>,
    /// Address of the program headers.
    pub phdr_vaddr: VirtAddr,
    pub phnum: u16,
    pub phentsize: u16,
}

impl Default for ExecContext {
    fn default() -> (r: Self)
        ensures
            r.load_base.0 == 0,
            r.mapped_regions@.len() == 0,
            r.brk.0 == 0,
            r.user_entry.0 == 0,
            r.interp_entry is None,
            r.interp_path is None,
            r.phdr_vaddr.0 == 0,
            r.phnum == 0,
            r.phentsize == 0,
    {
        ExecContext {
            load_base: VirtAddr::new(0),
            mapped_regions: Vec::new(),
            brk: VirtAddr::new(0),
            user_entry: VirtAddr::new(0),
            interp_entry: None,
            interp_path: None,
            phdr_vaddr: VirtAddr::new(0),
            phnum: 0,
            phentsize: 0,
        }
    }
}

/// The part that a program header loads, moved by `base`.
pub open spec fn region_of(p: ProgramHeader, base: int) -> MemoryRegion {
    MemoryRegion {
        vaddr: (p.p_vaddr + base) as u64,
        memsz: p.p_memsz,
        filesz: p.p_filesz,
        offset: p.p_offset,
        prot: perm_for(p.p_flags),
    }
}

/// The parts that the first `n` program headers load.
pub open spec fn regions_of(ps: Seq<ProgramHeader>, n: int, base: int) -> Seq<MemoryRegion>
    decreases n,
{
    if n <= 0 {
        Seq::empty()
    } else {
        let before = regions_of(ps, n - 1, base);
        if ps[n - 1].p_type == PT_LOAD {
            before.push(region_of(ps[n - 1], base))
        } else {
            before
        }
    }
}

/// The highest end of those parts.
pub open spec fn top_of(ps: Seq<ProgramHeader>, n: int, base: int) -> int
    decreases n,
{
    if n <= 0 {
        0
    } else {
        let before = top_of(ps, n - 1, base);
        let end = ps[n - 1].p_vaddr + base + ps[n - 1].p_memsz;
        if ps[n - 1].p_type == PT_LOAD && end > before {
            end
        } else {
            before
        }
    }
}

/// Addresses do not overflow.
pub open spec fn addresses_fit(ps: Seq<ProgramHeader>, base: int) -> bool {
    forall|i: int|
        0 <= i < ps.len() ==> ((#[trigger] ps[i]).p_type == PT_LOAD ==> ps[i].p_vaddr + base
            + ps[i].p_memsz + 4095 <= u64::MAX) && (ps[i].p_type == PT_PHDR ==> ps[i].p_vaddr + base
            <= u64::MAX)
}

impl ExecContext {
    /// Pick out what the program needs, placed at `load_base`.
    pub fn build(
        elf_bytes: &[u8],
        ehdr: &ElfHeader,
        phdrs: &Vec<ProgramHeader>,
        load_base: VirtAddr,
    ) -> (r: Self)
        requires
            texts_fit(phdrs@),
            addresses_fit(phdrs@, load_base.0 as int),
            ehdr.e_entry + load_base.0 <= u64::MAX,
        ensures
            ({
                let n = phdrs@.len() as int;
                let base = load_base.0 as int;
                &&& r.load_base == load_base
                &&& r.mapped_regions@ == regions_of(phdrs@, n, base)
                &&& r.brk.0 == page_ceil(top_of(phdrs@, n, base))
                &&& r.user_entry.0 == ehdr.e_entry + base
                &&& r.interp_entry is None
                &&& match (r.interp_path, interp_of(elf_bytes@, phdrs@, n)) {
                    (Some(s), Some(t)) => s@ == t,
                    (None, None) => true,
                    _ => false,
                }
                &&& r.phdr_vaddr.0 == (if has_phdr(phdrs@, n) {
                    phdr_vaddr_of(phdrs@, n) + base
                } else {
                    0
                })
                &&& r.phnum == ehdr.e_phnum
                &&& r.phentsize == ehdr.e_phentsize
            }),
    {
        let mut ctx = ExecContext::default();
        ctx.load_base = load_base;
        ctx.user_entry = VirtAddr::new(ehdr.e_entry + load_base.0);
        ctx.phnum = ehdr.e_phnum;
        ctx.phentsize = ehdr.e_phentsize;
        let ghost ps = phdrs@;
        let ghost base = load_base.0 as int;
        let mut max_vaddr: u64 = 0;
        let mut i: usize = 0;
        while i < phdrs.len()
            invariant
                i <= ps.len(),
                ps == phdrs@,
                base == load_base.0,
                texts_fit(ps),
                addresses_fit(ps, base),
                ctx.load_base == load_base,
                ctx.user_entry.0 == ehdr.e_entry + base,
                ctx.phnum == ehdr.e_phnum,
                ctx.phentsize == ehdr.e_phentsize,
                ctx.interp_entry is None,
                ctx.mapped_regions@ == regions_of(ps, i as int, base),
                max_vaddr == top_of(ps, i as int, base),
                max_vaddr + 4095 <= u64::MAX,
                match (ctx.interp_path, interp_of(elf_bytes@, ps, i as int)) {
                    (Some(s), Some(t)) => s@ == t,
                    (None, None) => true,
                    _ => false,
                },
                ctx.phdr_vaddr.0 == (if has_phdr(ps, i as int) {
                    phdr_vaddr_of(ps, i as int) + base
                } else {
                    0
                }),
            decreases ps.len() - i,
        {
            let phdr = phdrs[i];
            if phdr.p_type == PT_LOAD {
                let vaddr = phdr.p_vaddr + load_base.0;
                ctx.mapped_regions.push(
                    MemoryRegion {
                        vaddr,
                        memsz: phdr.p_memsz,
                        filesz: phdr.p_filesz,
                        offset: phdr.p_offset,
                        prot: elf_flags_to_mapperm(phdr.p_flags),
                    },
                );
                let segment_end = vaddr + phdr.p_memsz;
                if segment_end > max_vaddr {
                    max_vaddr = segment_end;
                }
            } else if phdr.p_type == PT_INTERP {
                if let Some(s) = read_text(elf_bytes, &phdr) {
                    ctx.interp_path = Some(s);
                }
            } else if phdr.p_type == PT_PHDR {
                ctx.phdr_vaddr = VirtAddr::new(phdr.p_vaddr + load_base.0);
            }
            i += 1;
        }
        ctx.brk = VirtAddr::new(max_vaddr + (PAGE_SIZE - 1)).page_align_down();
        ctx
    }
}

/// Whether one of the first `n` program headers gives the address of them all.
pub open spec fn has_phdr(ps: Seq<ProgramHeader>, n: int) -> bool
    decreases n,
{
    n > 0 && (ps[n - 1].p_type == PT_PHDR || has_phdr(ps, n - 1))
}

/// Protection for ELF flags.
pub fn elf_flags_to_mapperm(flags: u32) -> (r: MapPerm)
    ensures
        r == perm_for(flags),
{
    elf_flags_to_perm(flags)
}

/// Read the header and the program headers, which have to lie on the first page.
pub fn parse_elf_first_page(page_bytes: &[u8]) -> (r: Result<
    (ElfHeader, Vec<ProgramHeader>),
    ElfError,
>)
    ensures
        headers_are(page_bytes@, r),
{
    parse_header_and_phdrs(page_bytes)
}

/// Every part ends at or below the start of the heap.
pub proof fn law_heap_starts_after_program(ps: Seq<ProgramHeader>, n: int, i: int, base: int)
    requires
        0 <= i < n <= ps.len(),
        0 <= base,
        ps[i].p_type == PT_LOAD,
    ensures
        ps[i].p_vaddr + base + ps[i].p_memsz <= page_ceil(top_of(ps, n, base)),
    decreases n,
{
    assert(top_of(ps, n, base) <= page_ceil(top_of(ps, n, base)));
    if i < n - 1 {
        law_heap_starts_after_program(ps, n - 1, i, base);
        lemma_top(ps, n - 1, i, base);
    }
}

proof fn lemma_top(ps: Seq<ProgramHeader>, n: int, i: int, base: int)
    requires
        0 <= i < n <= ps.len(),
        ps[i].p_type == PT_LOAD,
    ensures
        ps[i].p_vaddr + base + ps[i].p_memsz <= top_of(ps, n, base),
    decreases n,
{
    if i < n - 1 {
        lemma_top(ps, n - 1, i, base);
    }
}

/// Every program header of the type that is loaded gives a part, moved by `base`, with its sizes and its
/// offset, in the order of the headers.
pub proof fn law_header_gives_region(ps: Seq<ProgramHeader>, n: int, base: int, j: int) -> (i: int)
    requires
        0 <= j < n <= ps.len(),
        ps[j].p_type == 1,
    ensures
        0 <= i < regions_of(ps, n, base).len(),
        ({
            let r = regions_of(ps, n, base)[i];
            let f = ps[j].p_flags;
            &&& r.vaddr == (ps[j].p_vaddr + base) as u64
            &&& r.memsz == ps[j].p_memsz
            &&& r.filesz == ps[j].p_filesz
            &&& r.offset == ps[j].p_offset
            &&& r.prot.0 == 8 + (if f & 4 != 0 { 1int } else { 0 }) + (if f & 2 != 0 { 2int } else { 0 })
                + (if f & 1 != 0 { 4int } else { 0 })
        }),
    decreases n,
{
    if j < n - 1 {
        law_header_gives_region(ps, n - 1, base, j)
    } else {
        regions_of(ps, n - 1, base).len() as int
    }
}

} // verus!
