//! Programs whose parts are mapped as a whole.
use vstd::prelude::*;
use crate::hal::addr::{page_ceil, VirtAddr, PAGE_SIZE};
use crate::hal::errno::Errno;
use crate::mm::vm::map::address_map::{
    insertable, lemma_raised_twice, raised, Entries, VmMap,
};
use crate::mm::vm::map::splay::rank;
use crate::mm::vm::object::VmObjects;
use crate::proc::elf::{region_of, ExecContext};
use crate::proc::exec::elf::{read_text, text_at, ProgramHeader, PT_INTERP, PT_LOAD};
use crate::proc::exec::exec_ctx::{
    ExecPipeline, USER_STACK_SIZE, USER_STACK_TOP, new_stack, stack_entry,
};
use crate::proc::exec::image::{
    file_objects, from_file, law_ranges_are_mapped, lemma_from_file_kept, lemma_grew_twice,
    lemma_rank_in_range, lemma_still_served, map_regions, region_ok, regions_stuck, serves, store_grew,
    with_regions,
};
use crate::proc::exec::program::DL_INTERP_OFFSET;
use crate::proc::exec::raw::{
    header_at, le, parse_elf_header, parse_phdrs, phdr_at, phdrs_within, runnable, PHDR_SIZE,
};
use crate::proc::exec::region::{
    covered, elf_flags_to_perm, segment_regions, whole_region, whole_regions, FileRegion, MemoryRegion,
};
use crate::proc::exec::stack::{AuxvEntry, AT_ENTRY, AT_NULL, AT_PAGESZ, AT_RANDOM};
use crate::proc::exec::shebang::same_text;

verus! {

/// Neither the end of the last page of the part that a program header loads, moved by `base`,
/// nor its share of the file overflows.
pub open spec fn header_fits(p: ProgramHeader, base: int) -> bool {
    &&& p.p_vaddr + base + p.p_memsz + 4095 <= u64::MAX
    &&& p.p_offset as int % 4096 + p.p_filesz <= u64::MAX
}

/// The parts with a size that the first `n` program headers load, moved by `base`; nothing
/// where one does not fit.
pub open spec fn sized_regions(ps: Seq<ProgramHeader>, n: int, base: int) -> Option<
    Seq<MemoryRegion>,
>
    decreases n,
{
    if n <= 0 {
        Some(Seq::empty())
    } else {
        let p = ps[n - 1];
        match sized_regions(ps, n - 1, base) {
            None => None,
            Some(rs) => if p.p_type != PT_LOAD || p.p_memsz == 0 {
                Some(rs)
            } else if header_fits(p, base) {
                Some(rs.push(region_of(p, base)))
            } else {
                None
            },
        }
    }
}

proof fn lemma_sized_stuck(ps: Seq<ProgramHeader>, i: int, n: int, base: int)
    requires
        i <= n,
        sized_regions(ps, i, base) is None,
    ensures
        sized_regions(ps, n, base) is None,
    decreases n - i,
{
    if i < n {
        lemma_sized_stuck(ps, i, n - 1, base);
    }
}

/// The parts with a size, moved by `base`.
pub fn load_regions(ps: &Vec<ProgramHeader>, base: u64) -> (r: Option<Vec<MemoryRegion>>)
    ensures
        match (r, sized_regions(ps@, ps@.len() as int, base as int)) {
            (Some(v), Some(rs)) => v@ == rs,
            (None, None) => true,
            _ => false,
        },
        r matches Some(v) ==> forall|i: int| 0 <= i < v@.len() ==> (#[trigger] v@[i]).fits(),
{
    let mut r: Vec<MemoryRegion> = Vec::new();
    let mut i: usize = 0;
    while i < ps.len()
        invariant
            i <= ps@.len(),
            sized_regions(ps@, i as int, base as int) == Some(r@),
            forall|j: int| 0 <= j < r@.len() ==> (#[trigger] r@[j]).fits(),
        decreases ps@.len() - i,
    {
        let p = ps[i];
        if p.p_type == PT_LOAD && p.p_memsz != 0 {
            let end: u128 = p.p_vaddr as u128 + base as u128 + p.p_memsz as u128;
            if end + 4095 > u64::MAX as u128 || p.p_offset % PAGE_SIZE > u64::MAX - p.p_filesz {
                proof {
                    assert(!header_fits(p, base as int));
                    lemma_sized_stuck(ps@, i + 1, ps@.len() as int, base as int);
                }
                return None;
            }
            let region = MemoryRegion {
                vaddr: p.p_vaddr + base,
                memsz: p.p_memsz,
                filesz: p.p_filesz,
                offset: p.p_offset,
                prot: elf_flags_to_perm(p.p_flags),
            };
            r.push(region);
        }
        i += 1;
    }
    Some(r)
}

/// Parts that fit can be mapped.
proof fn lemma_regions_ok(rs: Seq<MemoryRegion>, n: int, skip: bool)
    requires
        0 <= n <= rs.len(),
        forall|i: int| 0 <= i < rs.len() ==> (#[trigger] rs[i]).fits(),
    ensures
        forall|i: int|
            0 <= i < whole_regions(rs, n, skip).len() ==> region_ok(
                #[trigger] whole_regions(rs, n, skip)[i],
            ),
        whole_regions(rs, n, skip).len() <= n,
    decreases n,
{
    if n > 0 {
        lemma_regions_ok(rs, n - 1, skip);
        let q = rs[n - 1];
        assert(q.fits());
        let f = whole_region(rs, q);
        assert(region_ok(f));
        let before = whole_regions(rs, n - 1, skip);
        let now = whole_regions(rs, n, skip);
        assert forall|i: int| 0 <= i < now.len() implies region_ok(#[trigger] now[i]) by {
            if i < before.len() {
                assert(now[i] == before[i]);
            }
        }
    }
}

/// Map the parts of a program, each as a whole.
pub fn map_parts(
    vm: &mut VmMap,
    store: &mut VmObjects,
    vnode_id: u64,
    path: &String,
    regions: &Vec<MemoryRegion>,
    skip_empty: bool,
) -> (r: Result<(), Errno>)
    requires
        old(vm).wf(),
        old(store).wf(),
        old(vm).nentries + regions@.len() <= usize::MAX,
        forall|i: int| 0 <= i < regions@.len() ==> (#[trigger] regions@[i]).fits(),
    ensures
        final(vm).wf(),
        final(store).wf(),
        final(vm).pmap == old(vm).pmap,
        final(store).objects@.len() >= old(store).objects@.len(),
        final(vm).timestamp == raised(
            old(vm).timestamp,
            final(store).objects@.len() - old(store).objects@.len(),
        ),
        final(vm).nentries <= old(vm).nentries + regions@.len(),
        parts_mapped(
            old(vm),
            final(vm),
            old(store),
            final(store),
            whole_regions(regions@, regions@.len() as int, skip_empty),
            vnode_id,
            path@,
            r,
        ),
{
    let list = segment_regions(regions, skip_empty);
    proof {
        lemma_regions_ok(regions@, regions@.len() as int, skip_empty);
    }
    map_regions(vm, store, vnode_id, path, &list)
}

/// What mapping ranges does.
pub open spec fn parts_mapped(
    vm0: &VmMap,
    vm1: &VmMap,
    store0: &VmObjects,
    store1: &VmObjects,
    rs: Seq<FileRegion>,
    vnode_id: u64,
    path: Seq<char>,
    r: Result<(), Errno>,
) -> bool {
    let es = vm0.entries();
    let n = rs.len() as int;
    let base = store0.objects@.len() as int;
    match with_regions(es, rs, n, base) {
        None => {
            &&& r == Err::<(), Errno>(Errno::Enoexec)
            &&& regions_stuck(es, vm1.entries(), store0, store1, rs, vnode_id, path)
        },
        Some((now, k)) => {
            &&& r == Ok::<(), Errno>(())
            &&& vm1.entries() == now
            &&& store1.objects@.len() == base + k
            &&& file_objects(store0, store1, es, rs, n, vnode_id, path)
        },
    }
}

/// The program headers that the bytes give.
pub open spec fn phdrs_at(b: Seq<u8>) -> Seq<ProgramHeader> {
    let h = header_at(b);
    Seq::new(h.e_phnum as nat, |i: int| phdr_at(b, h.e_phoff + i * PHDR_SIZE))
}

/// The entry point and the ranges of a program given by its first page, placed at `offset`;
/// nothing where it cannot be run there.
pub open spec fn loadable(b: Seq<u8>, offset: int) -> Option<(int, Seq<FileRegion>)> {
    let h = header_at(b);
    let ps = phdrs_at(b);
    if !runnable(b) || !phdrs_within(b, h) || h.e_entry + offset > u64::MAX {
        None
    } else {
        match sized_regions(ps, ps.len() as int, offset) {
            None => None,
            Some(rs) => Some((h.e_entry + offset, whole_regions(rs, rs.len() as int, true))),
        }
    }
}

/// Map the dynamic linker, whose first page is given, at `offset`.  Returns its entry point.
pub fn load_interp_into(
    vm: &mut VmMap,
    store: &mut VmObjects,
    page0: &[u8],
    vnode_id: u64,
    path: &String,
    offset: u64,
) -> (r: Result<u64, Errno>)
    requires
        old(vm).wf(),
        old(store).wf(),
        old(vm).nentries + 65535 <= usize::MAX,
    ensures
        final(vm).wf(),
        final(store).wf(),
        final(vm).pmap == old(vm).pmap,
        final(store).objects@.len() >= old(store).objects@.len(),
        final(vm).timestamp == raised(
            old(vm).timestamp,
            final(store).objects@.len() - old(store).objects@.len(),
        ),
        final(vm).nentries <= old(vm).nentries + 65535,
        match loadable(page0@, offset as int) {
            None => {
                &&& r == Err::<u64, Errno>(Errno::Enoexec)
                &&& *final(vm) == *old(vm)
                &&& *final(store) == *old(store)
            },
            Some((entry, rs)) => {
                &&& parts_mapped(
                    old(vm),
                    final(vm),
                    old(store),
                    final(store),
                    rs,
                    vnode_id,
                    path@,
                    match r {
                        Ok(_) => Ok(()),
                        Err(e) => Err(e),
                    },
                )
                &&& r matches Ok(e) ==> e == entry
            },
        },
{
    let hdr = match parse_elf_header(page0) {
        Ok(h) => h,
        Err(e) => {
            return Err(e);
        },
    };
    let phdrs = match parse_phdrs(page0, &hdr) {
        Ok(v) => v,
        Err(e) => {
            return Err(e);
        },
    };
    assert(phdrs@ == phdrs_at(page0@));
    if hdr.e_entry > u64::MAX - offset {
        return Err(Errno::Enoexec);
    }
    let regions = match load_regions(&phdrs, offset) {
        Some(v) => v,
        None => {
            return Err(Errno::Enoexec);
        },
    };
    proof {
        lemma_sized_len(phdrs@, phdrs@.len() as int, offset as int);
    }
    match map_parts(vm, store, vnode_id, path, &regions, true) {
        Ok(_) => Ok(hdr.e_entry + offset),
        Err(e) => Err(e),
    }
}

proof fn lemma_sized_len(ps: Seq<ProgramHeader>, n: int, base: int)
    requires
        0 <= n,
    ensures
        sized_regions(ps, n, base) matches Some(rs) ==> rs.len() <= n,
    decreases n,
{
    if n > 0 {
        lemma_sized_len(ps, n - 1, base);
    }
}

/// The path that the first program header of that kind gives, where it can be read.
pub open spec fn first_interp_of(b: Seq<u8>, ps: Seq<ProgramHeader>, i: int) -> Option<Seq<char>>
    decreases ps.len() - i,
{
    if i < 0 || i >= ps.len() {
        None
    } else if ps[i].p_type == PT_INTERP {
        text_at(b, ps[i])
    } else {
        first_interp_of(b, ps, i + 1)
    }
}

/// The path of the dynamic linker that the first program header of that kind gives.
pub fn first_interp(bytes: &[u8], ps: &Vec<ProgramHeader>) -> (r: Option<String>)
    requires
        crate::proc::exec::elf::texts_fit(ps@),
    ensures
        same_text(r, first_interp_of(bytes@, ps@, 0)),
{
    let mut i: usize = 0;
    while i < ps.len()
        invariant
            i <= ps@.len(),
            crate::proc::exec::elf::texts_fit(ps@),
            first_interp_of(bytes@, ps@, 0) == first_interp_of(bytes@, ps@, i as int),
        decreases ps@.len() - i,
    {
        if ps[i].p_type == PT_INTERP {
            return read_text(bytes, &ps[i]);
        }
        i += 1;
    }
    None
}

/// The highest end of the first `n` parts, in whole pages.
pub open spec fn break_after(rs: Seq<MemoryRegion>, n: int) -> int
    decreases n,
{
    if n <= 0 {
        0
    } else {
        let before = break_after(rs, n - 1);
        let end = page_ceil(rs[n - 1].vaddr + rs[n - 1].memsz);
        if end > before {
            end
        } else {
            before
        }
    }
}

/// The start of the heap: the highest end of the parts, in whole pages.
pub fn program_break(rs: &Vec<MemoryRegion>) -> (r: VirtAddr)
    requires
        forall|i: int| 0 <= i < rs@.len() ==> (#[trigger] rs@[i]).fits(),
    ensures
        r.0 == break_after(rs@, rs@.len() as int),
{
    let mut brk: u64 = 0;
    let mut i: usize = 0;
    while i < rs.len()
        invariant
            i <= rs@.len(),
            forall|j: int| 0 <= j < rs@.len() ==> (#[trigger] rs@[j]).fits(),
            brk == break_after(rs@, i as int),
        decreases rs@.len() - i,
    {
        assert(rs@[i as int].fits());
        let end = rs[i].va_end().as_u64();
        if end > brk {
            brk = end;
        }
        i += 1;
    }
    VirtAddr::new(brk)
}

/// The dynamic linker: its first page and the file it comes from.
pub struct Linker<'a> {
    pub page0: &'a [u8],
    pub vnode_id: u64,
    pub path: &'a String,
}

/// The entries for a program mapped part by part, its dynamic linker and a stack, how many
/// objects they take, and where it starts; or the error that comes first.
pub open spec fn plain_entries(
    regions: Seq<MemoryRegion>,
    entry: int,
    linker: Option<Seq<u8>>,
    base: int,
) -> Result<(Entries, int, int), Errno> {
    let rs = whole_regions(regions, regions.len() as int, false);
    match with_regions(Seq::empty(), rs, rs.len() as int, base) {
        None => Err(Errno::Enoexec),
        Some((e1, k1)) => {
            let linked = match linker {
                None => Some((e1, 0int, entry)),
                Some(b) => match loadable(b, DL_INTERP_OFFSET as int) {
                    None => None,
                    Some((at, is)) => match with_regions(e1, is, is.len() as int, base + k1) {
                        None => None,
                        Some((e2, k2)) => Some((e2, k2, at)),
                    },
                },
            };
            match linked {
                None => Err(Errno::Enoexec),
                Some((e2, k2, at)) => {
                    let id = base + k1 + k2;
                    if insertable(e2, stack_entry(id)) {
                        Ok(
                            (
                                e2.insert(
                                    rank(e2, USER_STACK_TOP - USER_STACK_SIZE),
                                    stack_entry(id),
                                ),
                                k1 + k2 + 1,
                                at,
                            ),
                        )
                    } else {
                        Err(Errno::Enomem)
                    }
                },
            }
        },
    }
}

/// The bytes of the linker's first page.
pub open spec fn page_of_linker(l: Option<Linker>) -> Option<Seq<u8>> {
    match l {
        Some(l) => Some(l.page0@),
        None => None,
    }
}

/// The parts of the program come from its file, and those of its dynamic linker from the
/// linker's; the first object made is at `base`.
pub open spec fn parts_from_files(
    store: &VmObjects,
    regions: Seq<MemoryRegion>,
    vnode_id: u64,
    path: Seq<char>,
    linker: Option<Linker>,
    base: int,
) -> bool {
    let none: Entries = Seq::empty();
    let rs = whole_regions(regions, regions.len() as int, false);
    &&& from_file(store, none, rs, rs.len() as int, base, vnode_id, path)
    &&& with_regions(none, rs, rs.len() as int, base) matches Some((es, k)) && (
    linker matches Some(l) ==> (loadable(l.page0@, DL_INTERP_OFFSET as int) matches Some((_, is))
        && from_file(store, es, is, is.len() as int, base + k, l.vnode_id, l.path@)))
}

/// Map a program part by part, its dynamic linker where it has one, and a stack; they give the
/// entry point, the start of the heap and the vector.
pub fn build_plain(
    pipeline: &mut ExecPipeline,
    store: &mut VmObjects,
    ctx: &ExecContext,
    vnode_id: u64,
    path: &String,
    linker: Option<Linker>,
) -> (r: Result<(), Errno>)
    requires
        old(pipeline).wf(),
        old(pipeline).vm.entries().len() == 0,
        old(pipeline).auxv@.len() == 0,
        old(store).wf(),
        forall|i: int|
            0 <= i < ctx.mapped_regions@.len() ==> (#[trigger] ctx.mapped_regions@[i]).fits(),
        ctx.mapped_regions@.len() + 65536 <= usize::MAX,
    ensures
        final(pipeline).wf(),
        final(store).wf(),
        final(pipeline).vm.pmap == old(pipeline).vm.pmap,
        store_grew(old(store), final(store)),
        final(pipeline).vm.timestamp == raised(
            old(pipeline).vm.timestamp,
            final(store).objects@.len() - old(store).objects@.len(),
        ),
        ({
            let base = old(store).objects@.len() as int;
            match plain_entries(
                ctx.mapped_regions@,
                ctx.user_entry.0 as int,
                page_of_linker(linker),
                base,
            ) {
                Err(e) => r == Err::<(), Errno>(e),
                Ok((es, k, at)) => {
                    &&& r == Ok::<(), Errno>(())
                    &&& final(pipeline).vm.entries() == es
                    &&& final(store).objects@.len() == base + k
                    &&& parts_from_files(
                        final(store),
                        ctx.mapped_regions@,
                        vnode_id,
                        path@,
                        linker,
                        base,
                    )
                    &&& new_stack(final(store).objects@[base + k - 1])
                    &&& final(pipeline).entry == at
                    &&& final(pipeline).brk == ctx.brk
                    &&& final(pipeline).auxv@ == seq![
                        AuxvEntry { atype: AT_PAGESZ, value: 4096 },
                        AuxvEntry { atype: AT_ENTRY, value: at as u64 },
                        AuxvEntry { atype: AT_RANDOM, value: 0 },
                        AuxvEntry { atype: AT_NULL, value: 0 },
                    ]
                    &&& final(pipeline).stack_obj matches Some(o) && o == base + k - 1
                        && final(store).has(o as int)
                },
            }
        }),
{
    let ghost base = store.objects@.len() as int;
    let ghost ts = pipeline.vm.timestamp;
    let ghost none: Entries = Seq::empty();
    let ghost rs = whole_regions(ctx.mapped_regions@, ctx.mapped_regions@.len() as int, false);
    assert(pipeline.vm.entries() =~= none);
    match map_parts(&mut pipeline.vm, store, vnode_id, path, &ctx.mapped_regions, false) {
        Ok(_) => {},
        Err(e) => {
            assert(store_grew(old(store), store));
            return Err(e);
        },
    }
    let ghost s1 = *store;
    let ghost es = pipeline.vm.entries();
    assert(store_grew(old(store), &s1));
    let ghost given = linker;
    let entry = match linker {
        None => {
            proof {
                assert(s1.objects@.take(s1.objects@.len() as int) =~= s1.objects@);
                assert(s1.pagers@.take(s1.pagers@.len() as int) =~= s1.pagers@);
                assert(store_grew(&s1, store));
            }
            ctx.user_entry.as_u64()
        },
        Some(l) => match load_interp_into(
            &mut pipeline.vm,
            store,
            l.page0,
            l.vnode_id,
            l.path,
            DL_INTERP_OFFSET,
        ) {
            Ok(at) => {
                assert(store_grew(&s1, store));
                at
            },
            Err(e) => {
                proof {
                    if loadable(l.page0@, DL_INTERP_OFFSET as int) is None {
                        assert(s1.objects@.take(s1.objects@.len() as int) =~= s1.objects@);
                        assert(s1.pagers@.take(s1.pagers@.len() as int) =~= s1.pagers@);
                    }
                    assert(store_grew(&s1, store));
                    lemma_grew_twice(old(store), &s1, store);
                    lemma_raised_twice(
                        ts,
                        s1.objects@.len() - base,
                        store.objects@.len() - s1.objects@.len(),
                    );
                }
                return Err(e);
            },
        },
    };
    let ghost s2 = *store;
    match pipeline.with_stack(store) {
        Ok(_) => {},
        Err(e) => {
            proof {
                lemma_grew_twice(old(store), &s1, store);
                lemma_raised_twice(
                    ts,
                    s1.objects@.len() - base,
                    s2.objects@.len() - s1.objects@.len(),
                );
            }
            return Err(e);
        },
    }
    proof {
        lemma_raised_twice(ts, s1.objects@.len() - base, s2.objects@.len() - s1.objects@.len());
        lemma_raised_twice(ts, s2.objects@.len() - base, store.objects@.len() - s2.objects@.len());
        assert(store.objects@.take(s2.objects@.len() as int) =~= s2.objects@);
        assert(store.pagers@.take(s2.pagers@.len() as int) =~= s2.pagers@);
        assert(store_grew(&s2, store));
        lemma_grew_twice(&s1, &s2, store);
        lemma_grew_twice(old(store), &s1, store);
        lemma_from_file_kept(&s1, store, none, rs, rs.len() as int, base, vnode_id, path@);
        if let Some(l) = given {
            let (_, is) = loadable(l.page0@, DL_INTERP_OFFSET as int)->0;
            lemma_from_file_kept(
                &s2,
                store,
                es,
                is,
                is.len() as int,
                s1.objects@.len() as int,
                l.vnode_id,
                l.path@,
            );
        }
    }
    pipeline.entry = entry;
    pipeline.brk = ctx.brk;
    pipeline.auxv.push(AuxvEntry { atype: AT_PAGESZ, value: PAGE_SIZE });
    pipeline.auxv.push(AuxvEntry { atype: AT_ENTRY, value: entry });
    pipeline.finalize_auxv();
    assert(pipeline.auxv@ =~= seq![
        AuxvEntry { atype: AT_PAGESZ, value: 4096 },
        AuxvEntry { atype: AT_ENTRY, value: entry },
        AuxvEntry { atype: AT_RANDOM, value: 0 },
        AuxvEntry { atype: AT_NULL, value: 0 },
    ]);
    Ok(())
}

/// The heap of a program mapped part by part starts above every part.
pub proof fn law_break_is_above_parts(rs: Seq<MemoryRegion>, n: int, i: int)
    requires
        0 <= i < n <= rs.len(),
    ensures
        rs[i].vaddr + rs[i].memsz <= break_after(rs, n),
        break_after(rs, n) % 4096 == 0,
    decreases n,
{
    assert(break_after(rs, 0) == 0);
    if n > 1 {
        law_break_is_above_parts(rs, n - 1, if i < n - 1 {
            i
        } else {
            0
        });
    }
}

/// Every program header that loads a part of some size gives that part, moved by `base`, with its bytes of
/// the file and the access of its flags.
pub proof fn law_sized_part_is_loaded(ps: Seq<ProgramHeader>, n: int, base: int, j: int) -> (i: int)
    requires
        0 <= j < n <= ps.len(),
        ps[j].p_type == 1,
        ps[j].p_memsz > 0,
        sized_regions(ps, n, base) is Some,
    ensures
        0 <= i < (sized_regions(ps, n, base)->0).len(),
        ({
            let r = (sized_regions(ps, n, base)->0)[i];
            let f = ps[j].p_flags;
            &&& r.vaddr == (ps[j].p_vaddr + base) as u64
            &&& r.memsz == ps[j].p_memsz
            &&& r.filesz == ps[j].p_filesz
            &&& r.offset == ps[j].p_offset
            &&& r.prot.0 == 8 + (if f & 4 != 0 { 1int } else { 0 }) + (if f & 2 != 0 { 2int } else { 0 })
                + (if f & 1 != 0 { 4int } else { 0 })
        }),
    decreases n,
{
    if j < n - 1 {
        law_sized_part_is_loaded(ps, n - 1, base, j)
    } else {
        (sized_regions(ps, n - 1, base)->0).len() as int
    }
}

/// A part is mapped from the start of its first page to the end of its last, with the file from the start
/// of the page of its offset on, and with at least its own bytes of the file.
pub proof fn law_part_is_mapped_whole(rs: Seq<MemoryRegion>, i: int)
    requires
        0 <= i < rs.len(),
        rs[i].fits(),
        rs[i].memsz > 0,
        forall|j: int| 0 <= j < rs.len() ==> (#[trigger] rs[j]).fits(),
    ensures
        ({
            let r = rs[i];
            let f = whole_region(rs, r);
            &&& f.lo == r.vaddr as int / 4096 * 4096
            &&& f.lo <= r.vaddr && r.vaddr + r.memsz <= f.hi && f.hi < r.vaddr + r.memsz + 4096
            &&& f.hi % 4096 == 0
            &&& f.file_offset == r.offset as int / 4096 * 4096
            &&& f.valid >= r.offset as int % 4096 + r.filesz
            &&& f.prot == r.prot
        }),
{
    lemma_covered_own(rs, rs.len() as int, i);
}

proof fn lemma_covered_own(rs: Seq<MemoryRegion>, n: int, i: int)
    requires
        0 <= i < rs.len(),
        0 <= n <= rs.len(),
        rs[i].memsz > 0,
        forall|j: int| 0 <= j < rs.len() ==> (#[trigger] rs[j]).fits(),
    ensures
        i < n ==> covered(rs, n, rs[i]) >= rs[i].offset as int % 4096 + rs[i].filesz,
        0 <= covered(rs, n, rs[i]) <= u64::MAX,
    decreases n,
{
    if n > 0 {
        lemma_covered_own(rs, n - 1, i);
        assert(rs[n - 1].fits());
    }
}

/// A part that is mapped as a whole has no more bytes of the file than one of the parts that start on the
/// same pages of memory and of the file.
pub proof fn law_whole_part_has_no_more(rs: Seq<MemoryRegion>, i: int)
    requires
        0 <= i < rs.len(),
        rs[i].memsz > 0,
        forall|j: int| 0 <= j < rs.len() ==> (#[trigger] rs[j]).fits(),
    ensures
        exists|j: int|
            0 <= j < rs.len() && (#[trigger] rs[j]).vaddr as int / 4096 == rs[i].vaddr as int / 4096
                && rs[j].offset as int / 4096 == rs[i].offset as int / 4096 && whole_region(
                rs,
                rs[i],
            ).valid == rs[j].offset as int % 4096 + rs[j].filesz,
{
    let n = rs.len() as int;
    lemma_covered_own(rs, n, i);
    lemma_covered_by(rs, n, i);
    if covered(rs, n, rs[i]) > 0 {
        let j = choose|j: int|
            0 <= j < n && (#[trigger] rs[j]).vaddr as int / 4096 == rs[i].vaddr as int / 4096
                && rs[j].offset as int / 4096 == rs[i].offset as int / 4096 && covered(rs, n, rs[i])
                == rs[j].offset as int % 4096 + rs[j].filesz;
        assert(rs[j].fits());
        assert(whole_region(rs, rs[i]).valid == rs[j].offset as int % 4096 + rs[j].filesz);
    } else {
        assert(rs[i].fits());
        assert(whole_region(rs, rs[i]).valid == rs[i].offset as int % 4096 + rs[i].filesz);
    }
}

proof fn lemma_covered_by(rs: Seq<MemoryRegion>, n: int, i: int)
    requires
        0 <= i < rs.len(),
        0 <= n <= rs.len(),
        forall|j: int| 0 <= j < rs.len() ==> (#[trigger] rs[j]).fits(),
    ensures
        covered(rs, n, rs[i]) > 0 ==> exists|j: int|
            0 <= j < n && (#[trigger] rs[j]).vaddr as int / 4096 == rs[i].vaddr as int / 4096
                && rs[j].offset as int / 4096 == rs[i].offset as int / 4096 && covered(rs, n, rs[i])
                == rs[j].offset as int % 4096 + rs[j].filesz,
    decreases n,
{
    if n > 0 {
        lemma_covered_by(rs, n - 1, i);
        let before = covered(rs, n - 1, rs[i]);
        if covered(rs, n, rs[i]) == before && before > 0 {
            let j = choose|j: int|
                0 <= j < n - 1 && (#[trigger] rs[j]).vaddr as int / 4096 == rs[i].vaddr as int / 4096
                    && rs[j].offset as int / 4096 == rs[i].offset as int / 4096 && before
                    == rs[j].offset as int % 4096 + rs[j].filesz;
            assert(covered(rs, n, rs[i]) == rs[j].offset as int % 4096 + rs[j].filesz);
        } else if covered(rs, n, rs[i]) > 0 {
            let q = rs[n - 1];
            assert(q.vaddr as int / 4096 == rs[i].vaddr as int / 4096);
        }
    }
}

/// Every part of some size is among those that are mapped as a whole.
pub proof fn law_every_part_is_mapped(rs: Seq<MemoryRegion>, n: int, skip_empty: bool, j: int) -> (i: int)
    requires
        0 <= j < n <= rs.len(),
        rs[j].memsz > 0 || !skip_empty,
    ensures
        0 <= i < whole_regions(rs, n, skip_empty).len(),
        whole_regions(rs, n, skip_empty)[i] == whole_region(rs, rs[j]),
    decreases n,
{
    if j < n - 1 {
        law_every_part_is_mapped(rs, n - 1, skip_empty, j)
    } else {
        whole_regions(rs, n - 1, skip_empty).len() as int
    }
}

/// The address space of a program mapped part by part has an entry for every part, one for every part of
/// its dynamic linker, and one for the stack.  It starts at the entry point of the linker, moved to where
/// that is placed, where there is one, and else at its own.
pub proof fn law_plain_image_is_complete(
    regions: Seq<MemoryRegion>,
    entry: int,
    linker: Option<Seq<u8>>,
    base: int,
    j: int,
)
    requires
        plain_entries(regions, entry, linker, base) is Ok,
        0 <= j,
    ensures
        ({
            let (es, k, at) = plain_entries(regions, entry, linker, base)->Ok_0;
            &&& j < regions.len() ==> exists|x: int| #[trigger]
                serves(es, x, whole_region(regions, regions[j]))
            &&& linker is None ==> at == entry
            &&& linker matches Some(b) ==> at == le(b, 24, 8) as u64 + 0x20_0000_0000
            &&& linker matches Some(b) ==> loadable(b, 0x20_0000_0000) matches Some((_, is)) && (j
                < is.len() ==> exists|x: int| #[trigger] serves(es, x, is[j]))
            &&& exists|x: int|
                0 <= x < es.len() && (#[trigger] es[x]).lo == 0x3F_FFFE_F000 && es[x].hi
                    == 0x3F_FFFF_F000 && es[x].protection.0 == 11
        }),
{
    let rs = whole_regions(regions, regions.len() as int, false);
    let (e1, k1) = with_regions(Seq::empty(), rs, rs.len() as int, base)->0;
    let (es, n, at) = plain_entries(regions, entry, linker, base)->Ok_0;
    let (e2, k2) = match linker {
        None => (e1, 0int),
        Some(b) => {
            let is = (loadable(b, DL_INTERP_OFFSET as int)->0).1;
            with_regions(e1, is, is.len() as int, base + k1)->0
        },
    };
    let id = base + k1 + k2;
    let k = rank(e2, USER_STACK_TOP - USER_STACK_SIZE);
    lemma_rank_in_range(e2, USER_STACK_TOP - USER_STACK_SIZE);
    assert(es == e2.insert(k, stack_entry(id)));
    assert(es[k] == stack_entry(id));
    assert(es[k].lo == 0x3F_FFFE_F000);
    if j < regions.len() {
        let q = whole_region(regions, regions[j]);
        let i = law_every_part_is_mapped(regions, regions.len() as int, false, j);
        law_ranges_are_mapped(Seq::empty(), rs, rs.len() as int, base, i);
        if let Some(b) = linker {
            let is = (loadable(b, DL_INTERP_OFFSET as int)->0).1;
            lemma_still_served(e1, is, is.len() as int, base + k1, q);
        }
        let x = choose|x: int| #[trigger] serves(e2, x, q);
        if x < k {
            assert(serves(es, x, q));
        } else {
            assert(serves(es, x + 1, q));
        }
    }
    if let Some(b) = linker {
        let is = (loadable(b, DL_INTERP_OFFSET as int)->0).1;
        if j < is.len() {
            law_ranges_are_mapped(e1, is, is.len() as int, base + k1, j);
            let x = choose|x: int| #[trigger] serves(e2, x, is[j]);
            if x < k {
                assert(serves(es, x, is[j]));
            } else {
                assert(serves(es, x + 1, is[j]));
            }
        }
    }
}

/// The dynamic linker of a program mapped part by part is the one that the first program header of its
/// type names.
pub proof fn law_first_linker_counts(b: Seq<u8>, ps: Seq<ProgramHeader>, i: int, j: int)
    requires
        0 <= i <= j < ps.len(),
        ps[j].p_type == 3,
        forall|k: int| i <= k < j ==> (#[trigger] ps[k]).p_type != 3,
    ensures
        first_interp_of(b, ps, i) == text_at(b, ps[j]),
    decreases j - i,
{
    if i < j {
        law_first_linker_counts(b, ps, i + 1, j);
    }
}

} // verus!
