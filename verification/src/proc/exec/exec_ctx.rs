//! Construction of the address space of a new program, step by step.
//!
//! All steps work on an address space of their own: where one fails, the program that is
//! running is untouched.
use vstd::prelude::*;
use crate::hal::addr::{page_ceil, PhysAddr, VirtAddr, PAGE_SIZE};
use crate::hal::errno::Errno;
use crate::mm::allocator::frame_allocator::{FramePool, NUM_MAGAZINES};
use crate::mm::pmap::pte::entry_of;
use crate::mm::pmap::space::{enter_flags, entered, pmap_enter, Pmap};
use crate::mm::pmap::table::{pool_holdable, same_page};
use crate::mm::vm::fault::lemma_entry_bits;
use crate::mm::vm::map::address_map::{
    insertable, new_entry, raised, range_free, VmMap,
};
use crate::mm::vm::map::entry::{VmMapEntry, VmMapping};
use crate::mm::vm::map::heap::{sigcode_entry, trampoline_entered, SIGCODE_VA};
use crate::mm::vm::map::perm::{lemma_joined, MapPerm};
use crate::mm::vm::map::splay::{lemma_rank, rank};
use crate::mm::vm::object::{page_owned, VObjIndex, VmObject, VmObjects};
use crate::mm::vm::page_ref::PageRef;
use crate::mm::vm::shadow::{lookup, Object, PagerRef};
use crate::proc::exec::elf::{ElfParseResult, ElfSegment};
use crate::proc::exec::image::{
    file_objects, map_regions, regions_stuck, with_regions,
};
use crate::proc::exec::region::{
    normalize_page_regions, page_list, program_fits, segment_fits, FileRegion,
};
use crate::proc::exec::stack::{
    down16, fill_stack_page, pushed, rest_zero, slots, strings_at, strings_low, table, table_start,
    words_at, AuxvEntry, StackLayout, AT_ENTRY, AT_NULL, AT_PAGESZ, AT_PHDR, AT_PHENT, AT_PHNUM,
    AT_RANDOM,
};

verus! {

/// Size of the user stack.
pub const USER_STACK_SIZE: u64 = 0x1_0000;

/// End of the user stack.
pub const USER_STACK_TOP: u64 = 0x0000_003F_FFFF_F000;

/// Place of the last page of the user stack.
pub const STACK_PAGE_VA: u64 = 0x0000_003F_FFFF_E000;

/// The highest end of the first `n` parts that have a size.
pub open spec fn program_top(ss: Seq<ElfSegment>, n: int, base: int) -> int
    decreases n,
{
    if n <= 0 {
        0
    } else {
        let before = program_top(ss, n - 1, base);
        let end = ss[n - 1].vaddr + base + ss[n - 1].memsz;
        if ss[n - 1].memsz > 0 && end > before {
            end
        } else {
            before
        }
    }
}

/// What the vector says of a program.
pub open spec fn program_auxv(p: &ElfParseResult, base: int) -> Seq<AuxvEntry> {
    let first = seq![
        AuxvEntry { atype: AT_PAGESZ, value: 4096 },
        AuxvEntry { atype: AT_ENTRY, value: (p.entry + base) as u64 },
    ];
    if p.phdr_vaddr != 0 {
        first + seq![
            AuxvEntry { atype: AT_PHDR, value: (p.phdr_vaddr + base) as u64 },
            AuxvEntry { atype: AT_PHENT, value: p.phentsize as u64 },
            AuxvEntry { atype: AT_PHNUM, value: p.phnum as u64 },
        ]
    } else {
        first
    }
}

/// The pages of a program.
pub open spec fn program_list(p: &ElfParseResult, base: int) -> Seq<FileRegion> {
    page_list(p.segments@, p.segments@.len() as int, base)
}

/// The entry of the stack.
pub open spec fn stack_entry(object: int) -> VmMapEntry {
    new_entry(
        VirtAddr((USER_STACK_TOP - USER_STACK_SIZE) as u64),
        VirtAddr(USER_STACK_TOP),
        MapPerm(11),
        VmMapping::AnonPrivate { object: object as usize, offset: 0 },
    )
}

/// The object of a stack that was never touched; the map and the pipeline have a handle each.
pub open spec fn new_stack(slot: Option<Object<PageRef>>) -> bool {
    slot matches Some(n) && {
        &&& n.pages@ == Map::<u64, PageRef>::empty()
        &&& n.pager == Some(PagerRef::Anon)
        &&& n.backing is None
        &&& n.shadow_count == 0
        &&& n.size == USER_STACK_SIZE
        &&& n.resident_count == 0
        &&& n.generation == 0
        &&& n.clean_generation == 0
        &&& n.refs == 2
    }
}

/// An address space under construction.
pub struct ExecPipeline {
    pub vm: VmMap,
    /// Where the program starts.
    pub entry: u64,
    /// Start of the heap.
    pub brk: VirtAddr,
    /// Object of the stack.
    pub stack_obj: Option<usize>,
    pub auxv: Vec<AuxvEntry>,
}

impl ExecPipeline {
    pub open spec fn wf(&self) -> bool {
        self.vm.wf()
    }

    /// Start with an empty address space.
    pub fn new(pmap: Pmap) -> (r: Self)
        requires
            pmap.wf(),
        ensures
            r.wf(),
            r.vm.entries().len() == 0,
            r.vm.pmap == pmap,
            r.entry == 0,
            r.brk.0 == 0,
            r.stack_obj is None,
            r.auxv@.len() == 0,
    {
        ExecPipeline {
            vm: VmMap::new(pmap),
            entry: 0,
            brk: VirtAddr::new(0),
            stack_obj: None,
            auxv: Vec::new(),
        }
    }

    /// Map the parts of a program placed at `load_base`; they give the entry point, the
    /// start of the heap and the first entries of the vector.  The error is that parts are
    /// in each other's way.
    pub fn with_segments(
        &mut self,
        store: &mut VmObjects,
        parse: &ElfParseResult,
        vnode_id: u64,
        vnode_path: &String,
        load_base: u64,
    ) -> (r: Result<(), Errno>)
        requires
            old(self).wf(),
            old(store).wf(),
            program_fits(parse, load_base as int),
            parse.phdr_vaddr + load_base <= u64::MAX,
            old(self).vm.nentries + program_list(parse, load_base as int).len() <= usize::MAX,
        ensures
            final(self).wf(),
            final(store).wf(),
            final(self).vm.pmap == old(self).vm.pmap,
            final(store).objects@.len() >= old(store).objects@.len(),
            final(self).vm.timestamp == raised(
                old(self).vm.timestamp,
                final(store).objects@.len() - old(store).objects@.len(),
            ),
            final(self).stack_obj == old(self).stack_obj,
            final(self).vm.nentries <= old(self).vm.nentries + program_list(
                parse,
                load_base as int,
            ).len(),
            ({
                let es = old(self).vm.entries();
                let rs = program_list(parse, load_base as int);
                let base = old(store).objects@.len() as int;
                match with_regions(es, rs, rs.len() as int, base) {
                    None => {
                        &&& r == Err::<(), Errno>(Errno::Enoexec)
                        &&& final(self).entry == old(self).entry
                        &&& regions_stuck(
                            es,
                            final(self).vm.entries(),
                            old(store),
                            final(store),
                            rs,
                            vnode_id,
                            vnode_path@,
                        )
                        &&& final(self).brk == old(self).brk
                        &&& final(self).auxv@ == old(self).auxv@
                    },
                    Some((now, k)) => {
                        &&& r == Ok::<(), Errno>(())
                        &&& final(self).vm.entries() == now
                        &&& final(store).objects@.len() == base + k
                        &&& file_objects(
                            old(store),
                            final(store),
                            es,
                            rs,
                            rs.len() as int,
                            vnode_id,
                            vnode_path@,
                        )
                        &&& final(self).entry == parse.entry + load_base
                        &&& final(self).brk.0 == page_ceil(
                            program_top(
                                parse.segments@,
                                parse.segments@.len() as int,
                                load_base as int,
                            ),
                        )
                        &&& final(self).auxv@ == old(self).auxv@ + program_auxv(
                            parse,
                            load_base as int,
                        )
                    },
                }
            }),
    {
        let ghost ss = parse.segments@;
        let ghost base = load_base as int;
        let pages = normalize_page_regions(parse, load_base);
        match map_regions(&mut self.vm, store, vnode_id, vnode_path, &pages) {
            Ok(_) => {},
            Err(e) => {
                return Err(e);
            },
        }
        let mut max_vaddr: u64 = 0;
        let mut i: usize = 0;
        while i < parse.segments.len()
            invariant
                i <= ss.len(),
                ss == parse.segments@,
                base == load_base,
                program_fits(parse, base),
                max_vaddr == program_top(ss, i as int, base),
                max_vaddr + 4095 <= u64::MAX,
            decreases ss.len() - i,
        {
            let seg = parse.segments[i];
            assert(segment_fits(ss[i as int], base));
            if seg.memsz > 0 {
                let end = seg.vaddr + load_base + seg.memsz;
                if end > max_vaddr {
                    max_vaddr = end;
                }
            }
            i += 1;
        }
        self.entry = parse.entry + load_base;
        self.brk = VirtAddr::new(max_vaddr + (PAGE_SIZE - 1)).page_align_down();
        let ghost aux0 = self.auxv@;
        self.auxv.push(AuxvEntry { atype: AT_PAGESZ, value: PAGE_SIZE });
        self.auxv.push(AuxvEntry { atype: AT_ENTRY, value: self.entry });
        if parse.phdr_vaddr != 0 {
            self.auxv.push(AuxvEntry { atype: AT_PHDR, value: parse.phdr_vaddr + load_base });
            self.auxv.push(AuxvEntry { atype: AT_PHENT, value: parse.phentsize as u64 });
            self.auxv.push(AuxvEntry { atype: AT_PHNUM, value: parse.phnum as u64 });
        }
        assert(self.auxv@ =~= aux0 + program_auxv(parse, base));
        Ok(())
    }

    /// Map the parts of the dynamic linker, which then starts in place of the program.
    pub fn with_interp_segments(
        &mut self,
        store: &mut VmObjects,
        parse: &ElfParseResult,
        vnode_id: u64,
        vnode_path: &String,
        load_base: u64,
    ) -> (r: Result<(), Errno>)
        requires
            old(self).wf(),
            old(store).wf(),
            program_fits(parse, load_base as int),
            old(self).vm.nentries + program_list(parse, load_base as int).len() <= usize::MAX,
        ensures
            final(self).wf(),
            final(store).wf(),
            final(self).vm.pmap == old(self).vm.pmap,
            final(store).objects@.len() >= old(store).objects@.len(),
            final(self).vm.timestamp == raised(
                old(self).vm.timestamp,
                final(store).objects@.len() - old(store).objects@.len(),
            ),
            final(self).stack_obj == old(self).stack_obj,
            final(self).brk == old(self).brk,
            final(self).auxv == old(self).auxv,
            final(self).vm.nentries <= old(self).vm.nentries + program_list(
                parse,
                load_base as int,
            ).len(),
            ({
                let es = old(self).vm.entries();
                let rs = program_list(parse, load_base as int);
                let base = old(store).objects@.len() as int;
                match with_regions(es, rs, rs.len() as int, base) {
                    None => {
                        &&& r == Err::<(), Errno>(Errno::Enoexec)
                        &&& final(self).entry == old(self).entry
                        &&& regions_stuck(
                            es,
                            final(self).vm.entries(),
                            old(store),
                            final(store),
                            rs,
                            vnode_id,
                            vnode_path@,
                        )
                    },
                    Some((now, k)) => {
                        &&& r == Ok::<(), Errno>(())
                        &&& final(self).vm.entries() == now
                        &&& final(store).objects@.len() == base + k
                        &&& file_objects(
                            old(store),
                            final(store),
                            es,
                            rs,
                            rs.len() as int,
                            vnode_id,
                            vnode_path@,
                        )
                        &&& final(self).entry == parse.entry + load_base
                    },
                }
            }),
    {
        let pages = normalize_page_regions(parse, load_base);
        match map_regions(&mut self.vm, store, vnode_id, vnode_path, &pages) {
            Ok(_) => {},
            Err(e) => {
                return Err(e);
            },
        }
        self.entry = parse.entry + load_base;
        Ok(())
    }

    /// Map a stack.  The error is that something is in its way.
    pub fn with_stack(&mut self, store: &mut VmObjects) -> (r: Result<(), Errno>)
        requires
            old(self).wf(),
            old(store).wf(),
            old(self).vm.nentries < usize::MAX,
        ensures
            final(self).wf(),
            final(store).wf(),
            final(self).vm.pmap == old(self).vm.pmap,
            final(store).objects@.len() >= old(store).objects@.len(),
            final(self).vm.timestamp == raised(
                old(self).vm.timestamp,
                final(store).objects@.len() - old(store).objects@.len(),
            ),
            final(self).entry == old(self).entry,
            final(self).brk == old(self).brk,
            final(self).auxv == old(self).auxv,
            final(store).pagers == old(store).pagers,
            final(self).vm.nentries <= old(self).vm.nentries + 1,
            ({
                let es = old(self).vm.entries();
                let id = old(store).objects@.len() as int;
                if insertable(es, stack_entry(id)) {
                    &&& r == Ok::<(), Errno>(())
                    &&& final(self).vm.entries() == es.insert(
                        rank(es, USER_STACK_TOP - USER_STACK_SIZE),
                        stack_entry(id),
                    )
                    &&& final(self).stack_obj matches Some(o) && o == id
                    &&& final(store).objects@ == old(store).objects@.push(
                        final(store).objects@[id],
                    )
                    &&& new_stack(final(store).objects@[id])
                } else {
                    &&& r == Err::<(), Errno>(Errno::Enomem)
                    &&& final(self).vm.entries() == es
                    &&& final(self).stack_obj == old(self).stack_obj
                    &&& *final(store) == *old(store)
                }
            }),
    {
        let ghost es = self.vm.entries();
        proof {
            reveal_with_fuel(raised, 2);
        }
        let start = VirtAddr::new(USER_STACK_TOP - USER_STACK_SIZE);
        let end = VirtAddr::new(USER_STACK_TOP);
        let ghost id = store.objects@.len() as int;
        if !self.vm.is_range_free(start, end) {
            return Err(Errno::Enomem);
        }
        proof {
            lemma_joined();
            lemma_rank(es, start.0 as int);
        }
        let object = VmObject::new_anon(store, USER_STACK_SIZE);
        store.retain(object);
        assert(store.objects@ =~= old(store).objects@.push(store.objects@[id]));
        let perm = MapPerm::R() | MapPerm::W() | MapPerm::U();
        assert(insertable(es, stack_entry(id)));
        let _ = self.vm.map(start, end, perm, VmMapping::AnonPrivate { object, offset: 0 });
        self.stack_obj = Some(object);
        Ok(())
    }

    /// Map the signal trampoline, whose object is `sigcode`.
    pub fn with_sigcode(
        &mut self,
        store: &mut VmObjects,
        pool: &mut FramePool,
        cpu: usize,
        sigcode: usize,
    )
        requires
            old(self).wf(),
            old(store).wf(),
            old(store).has(sigcode as int),
            old(store).obj(sigcode as int).refs < usize::MAX,
            old(self).vm.nentries < usize::MAX,
            range_free(old(self).vm.entries(), SIGCODE_VA as int, SIGCODE_VA + 4096),
            old(pool).inv(),
            pool_holdable(old(pool)),
            cpu < NUM_MAGAZINES,
            old(self).vm.pmap.stats.wired_count < usize::MAX,
        ensures
            final(self).wf(),
            final(store).wf(),
            final(pool).inv(),
            forall|p: int| #[trigger] final(pool).pool_free(p) ==> old(pool).pool_free(p),
            pool_holdable(final(pool)),
            final(self).vm.timestamp == old(self).vm.timestamp.wrapping_add(1),
            final(self).vm.pmap.same_identity(&old(self).vm.pmap),
            final(self).entry == old(self).entry,
            final(self).brk == old(self).brk,
            final(self).auxv == old(self).auxv,
            final(self).stack_obj == old(self).stack_obj,
            final(store).pagers == old(store).pagers,
            final(self).vm.entries() == old(self).vm.entries().insert(
                rank(old(self).vm.entries(), SIGCODE_VA as int),
                sigcode_entry(sigcode),
            ),
            final(store).objects@ == old(store).objects@.update(
                sigcode as int,
                Some(
                    Object {
                        refs: (old(store).obj(sigcode as int).refs + 1) as usize,
                        ..old(store).obj(sigcode as int)
                    },
                ),
            ),
            final(self).vm.pmap.stats.wired_count == old(self).vm.pmap.stats.wired_count,
            trampoline_entered(
                &old(self).vm.pmap,
                &final(self).vm.pmap,
                old(pool),
                final(pool),
                cpu as int,
                lookup(old(store).objects@, sigcode as int, 0),
            ),
    {
        self.vm.map_sigcode(store, pool, cpu, sigcode);
    }

    /// End the vector; the address of the random bytes is filled in with the stack.
    pub fn finalize_auxv(&mut self)
        ensures
            final(self).vm == old(self).vm,
            final(self).entry == old(self).entry,
            final(self).brk == old(self).brk,
            final(self).stack_obj == old(self).stack_obj,
            final(self).auxv@ == old(self).auxv@ + seq![
                AuxvEntry { atype: AT_RANDOM, value: 0 },
                AuxvEntry { atype: AT_NULL, value: 0 },
            ],
    {
        let ghost aux0 = self.auxv@;
        self.auxv.push(AuxvEntry { atype: AT_RANDOM, value: 0 });
        self.auxv.push(AuxvEntry { atype: AT_NULL, value: 0 });
        assert(self.auxv@ =~= aux0 + seq![
            AuxvEntry { atype: AT_RANDOM, value: 0 },
            AuxvEntry { atype: AT_NULL, value: 0 },
        ]);
    }
}

/// The first page of a stack.
pub struct StackPage {
    /// The frame of the page.
    pub frame: PhysAddr,
    /// What goes into it.
    pub contents: Vec<u8>,
    /// The stack pointer.
    pub sp: u64,
}

/// Give the stack its first page and enter it.  The error is that there is no frame, or that
/// the table does not fit.
pub fn materialize_stack(
    pipeline: &mut ExecPipeline,
    store: &mut VmObjects,
    pool: &mut FramePool,
    cpu: usize,
    layout: &StackLayout,
    argv: &Vec<String>,
    envp: &Vec<String>,
) -> (r: Result<StackPage, Errno>)
    requires
        old(pipeline).wf(),
        old(store).wf(),
        old(pipeline).stack_obj matches Some(o) && old(store).has(o as int),
        old(pool).inv(),
        pool_holdable(old(pool)),
        cpu < NUM_MAGAZINES,
        old(pipeline).vm.pmap.stats.wired_count < usize::MAX,
        0 <= strings_low(argv@, envp@),
        layout.n_slots == slots(
            argv@.len() as int,
            envp@.len() as int,
            layout.auxv@.len() as int,
        ),
        layout.table_bytes == layout.n_slots * 8,
    ensures
        final(pipeline).wf(),
        final(store).wf(),
        final(store).pagers == old(store).pagers,
        final(pool).inv(),
        forall|p: int| #[trigger] final(pool).pool_free(p) ==> old(pool).pool_free(p),
        pool_holdable(final(pool)),
        final(pipeline).vm.entries() == old(pipeline).vm.entries(),
        final(pipeline).vm.nentries == old(pipeline).vm.nentries,
        final(pipeline).vm.timestamp == old(pipeline).vm.timestamp,
        final(pipeline).vm.pmap.same_identity(&old(pipeline).vm.pmap),
        final(pipeline).entry == old(pipeline).entry,
        final(pipeline).brk == old(pipeline).brk,
        final(pipeline).auxv == old(pipeline).auxv,
        final(pipeline).stack_obj == old(pipeline).stack_obj,
        r matches Err(e) ==> e == Errno::Enomem,
        exists|mid: FramePool, own: Result<(PhysAddr, bool), Errno>| #[trigger]
            page_owned(
                old(store),
                final(store),
                old(pool),
                &mid,
                cpu as int,
                old(pipeline).stack_obj->0 as int,
                15,
                own,
            ) && match own {
                Err(_) => r is Err && final(pipeline).vm.pmap == old(pipeline).vm.pmap && *final(pool)
                    == mid,
                Ok((pa, _)) => {
                    &&& r is Err <==> down16(strings_low(argv@, envp@)) < layout.table_bytes
                    &&& r matches Ok(p) ==> p.frame == pa
                    &&& stack_entered(
                        &old(pipeline).vm.pmap,
                        &final(pipeline).vm.pmap,
                        &mid,
                        final(pool),
                        cpu as int,
                        pa,
                    )
                },
            },
        r matches Ok(p) ==> {
            let t = table_start(argv@, envp@, layout.table_bytes as int);
            let low = pushed(argv@, argv@.len() as int, 4080);
            &&& p.contents@.len() == 4096
            &&& rest_zero(p.contents@, argv@, envp@, t, layout.table_bytes as int)
            &&& p.sp == STACK_PAGE_VA + t
            &&& p.sp % 16 == 0
            &&& 0 <= t
            &&& strings_at(p.contents@, argv@, argv@.len() as int, 4080)
            &&& strings_at(p.contents@, envp@, envp@.len() as int, low)
            &&& words_at(
                p.contents@,
                t,
                table(argv@, envp@, layout.auxv@, STACK_PAGE_VA as int),
                layout.n_slots as int,
            )
        },
{
    let o = pipeline.stack_obj.unwrap();
    let own = VmObject::fault_allocate_anon(store, pool, cpu, o, VObjIndex::new(15));
    let ghost mid = *pool;
    assert(page_owned(old(store), store, old(pool), &mid, cpu as int, o as int, 15, own));
    let frame = match own {
        Err(_) => {
            return Err(Errno::Enomem);
        },
        Ok((pa, _)) => pa,
    };
    proof {
        lemma_joined();
        assert forall|p: int| #[trigger] pool.pool_free(p) implies 0 <= p < 0x1000_0000_0000 by {
            assert(old(pool).pool_free(p));
        }
    }
    let perm = MapPerm::R() | MapPerm::W() | MapPerm::U();
    let _ = pmap_enter(
        &mut pipeline.vm.pmap,
        pool,
        cpu,
        VirtAddr::new(STACK_PAGE_VA),
        frame,
        perm,
        false,
    );
    assert(stack_entered(
        &old(pipeline).vm.pmap,
        &pipeline.vm.pmap,
        &mid,
        pool,
        cpu as int,
        frame,
    ));
    match fill_stack_page(layout, argv, envp, STACK_PAGE_VA) {
        Err(e) => Err(e),
        Ok((contents, sp)) => Ok(StackPage { frame, contents, sp }),
    }
}

/// The page is entered for the stack, unless no table could be had for it.
pub open spec fn stack_entered(
    before: &Pmap,
    after: &Pmap,
    pool0: &FramePool,
    pool1: &FramePool,
    cpu: int,
    pa: PhysAddr,
) -> bool {
    let raw = entry_of(pa.0, enter_flags(MapPerm(11), false));
    ||| entered(before, after, pool0, pool1, cpu, STACK_PAGE_VA as int, raw, true)
    ||| entered(before, after, pool0, pool1, cpu, STACK_PAGE_VA as int, raw, false)
}

/// The heap of a program starts above every part of it that has a size, and at the end of one of them
/// where there is one.
pub proof fn law_heap_is_above_program(ss: Seq<ElfSegment>, n: int, base: int)
    requires
        0 <= n <= ss.len(),
        0 <= base,
    ensures
        forall|i: int|
            0 <= i < n && (#[trigger] ss[i]).memsz > 0 ==> ss[i].vaddr + base + ss[i].memsz
                <= program_top(ss, n, base),
        program_top(ss, n, base) == 0 || exists|i: int|
            0 <= i < n && (#[trigger] ss[i]).memsz > 0 && program_top(ss, n, base) == ss[i].vaddr + base
                + ss[i].memsz,
    decreases n,
{
    if n > 0 {
        law_heap_is_above_program(ss, n - 1, base);
        let before = program_top(ss, n - 1, base);
        let end = ss[n - 1].vaddr + base + ss[n - 1].memsz;
        if !(ss[n - 1].memsz > 0 && end > before) && before != 0 {
            let i = choose|i: int|
                0 <= i < n - 1 && (#[trigger] ss[i]).memsz > 0 && before == ss[i].vaddr + base
                    + ss[i].memsz;
            assert(ss[i].memsz > 0 && program_top(ss, n, base) == ss[i].vaddr + base + ss[i].memsz);
        } else if ss[n - 1].memsz > 0 && end > before {
            assert(program_top(ss, n, base) == ss[n - 1].vaddr + base + ss[n - 1].memsz);
        }
    }
}

/// What a program is told: the page size, its entry point and, where it says where its headers are,
/// their address, size and number; addresses are moved as the program is.
pub proof fn law_program_is_told(p: &ElfParseResult, base: int)
    requires
        0 <= base,
        p.entry + base <= u64::MAX,
        p.phdr_vaddr + base <= u64::MAX,
    ensures
        ({
            let a = program_auxv(p, base);
            &&& a.len() == if p.phdr_vaddr != 0 {
                5int
            } else {
                2
            }
            &&& a[0].atype == 6 && a[0].value == 4096
            &&& a[1].atype == 9 && a[1].value == p.entry + base
            &&& p.phdr_vaddr != 0 ==> a[2].atype == 3 && a[2].value == p.phdr_vaddr + base && a[3].atype
                == 4 && a[3].value == p.phentsize && a[4].atype == 5 && a[4].value == p.phnum
        }),
{
}

/// The stack of a program takes the last sixteen pages below its top, and can be read and written, but
/// not executed, by the user.
pub proof fn law_stack_has_its_place(object: int)
    ensures
        ({
            let e = stack_entry(object);
            &&& e.hi == 0x3F_FFFF_F000
            &&& e.lo == e.hi - 0x1_0000
            &&& e.protection.0 == 11
            &&& e.mapping is AnonPrivate
        }),
{
}

/// The first page of the stack is translated wherever that is possible, to be read and written but not
/// executed by the user; no other translation changes.
pub proof fn law_stack_page_is_entered(
    before: &Pmap,
    after: &Pmap,
    pool0: &FramePool,
    pool1: &FramePool,
    cpu: int,
    pa: PhysAddr,
    v: int,
)
    requires
        stack_entered(before, after, pool0, pool1, cpu, pa),
        pa.0 < 0x100_0000_0000_0000,
    ensures
        ({
            let at: int = 0x3F_FFFF_E000;
            let raw = after.entry_at(at);
            &&& !before.root.large_at(at) && (exists|p: int| #[trigger] pool1.pool_free(p)) ==> raw % 2
                == 1 && raw / 2 % 2 == 1 && raw / 4 % 2 == 1 && raw / 8 % 2 == 0 && raw / 16 % 2 == 1
                && raw as int / 1024 % 0x1000_0000_0000 * 4096 == pa.0 as int / 4096 * 4096
            &&& !same_page(at, v) ==> after.entry_at(v) == before.entry_at(v)
        }),
{
    lemma_entry_bits(pa.0, MapPerm(11));
    assert(same_page(STACK_PAGE_VA as int, STACK_PAGE_VA as int));
}

} // verus!
