//! The address space of a new program, as a whole.
use vstd::prelude::*;
use crate::hal::addr::{page_ceil, PhysAddr};
use crate::hal::errno::Errno;
use crate::mm::allocator::frame_allocator::{FramePool, NUM_MAGAZINES};
use crate::mm::pmap::space::Pmap;
use crate::mm::pmap::table::pool_holdable;
use crate::mm::vm::map::address_map::{
    insertable, lemma_raised_twice, raised, range_free, Entries,
};
use crate::mm::vm::map::heap::{sigcode_entry, trampoline_entered, SIGCODE_VA};
use crate::mm::vm::map::splay::rank;
use crate::mm::vm::object::{page_owned, VmObjects};
use crate::mm::vm::page_ref::PageRef;
use crate::mm::vm::shadow::{live, lookup, Object, Objects};
use crate::proc::exec::elf::ElfParseResult;
use crate::proc::exec::exec_ctx::{
    materialize_stack, new_stack, program_auxv, program_list, program_top, stack_entered, stack_entry, ExecPipeline,
    StackPage, STACK_PAGE_VA, USER_STACK_SIZE, USER_STACK_TOP,
};
use crate::proc::exec::image::{
    from_file, law_ranges_are_mapped, lemma_from_file_kept, lemma_grew_twice, lemma_rank_in_range,
    lemma_still_served, serves, store_grew, with_regions,
};
use crate::proc::exec::region::program_fits;
use crate::proc::exec::stack::{
    arguments_found, down16, lemma_arguments_found, pushed, rest_zero, slots, strings_at, strings_low, table, table_start, words_at,
    AuxvEntry, StackLayout, AT_NULL, AT_RANDOM,
};

verus! {

/// Where the dynamic linker is placed.
pub const DL_INTERP_OFFSET: u64 = 0x20_0000_0000;

/// A program and the file it comes from.
pub struct Program<'a> {
    pub parse: &'a ElfParseResult,
    pub vnode_id: u64,
    pub path: &'a String,
}

/// The entries for a program, its dynamic linker and a stack, and how many objects they take,
/// the first of them at `base`; or the error that comes first.
pub open spec fn image_entries(
    main: &ElfParseResult,
    interp: Option<&ElfParseResult>,
    base: int,
) -> Result<(Entries, int), Errno> {
    let rs = program_list(main, 0);
    match with_regions(Seq::empty(), rs, rs.len() as int, base) {
        None => Err(Errno::Enoexec),
        Some((e1, k1)) => {
            let linked = match interp {
                None => Some((e1, 0int)),
                Some(p) => {
                    let is = program_list(p, DL_INTERP_OFFSET as int);
                    with_regions(e1, is, is.len() as int, base + k1)
                },
            };
            match linked {
                None => Err(Errno::Enoexec),
                Some((e2, k2)) => {
                    let id = base + k1 + k2;
                    if insertable(e2, stack_entry(id)) {
                        Ok(
                            (
                                e2.insert(
                                    rank(e2, USER_STACK_TOP - USER_STACK_SIZE),
                                    stack_entry(id),
                                ),
                                k1 + k2 + 1,
                            ),
                        )
                    } else {
                        Err(Errno::Enomem)
                    }
                },
            }
        },
    }
}

/// How many pages a program has.
pub open spec fn pages_in(main: &ElfParseResult, interp: Option<&ElfParseResult>) -> int {
    program_list(main, 0).len() + match interp {
        Some(p) => program_list(p, DL_INTERP_OFFSET as int).len() as int,
        None => 0,
    }
}

/// The parse of the program, where there is one.
pub open spec fn parse_of(p: Option<Program>) -> Option<&ElfParseResult> {
    match p {
        Some(p) => Some(p.parse),
        None => None,
    }
}

/// The pages of the program come from its file, and those of its dynamic linker from the
/// linker's; the first object made is at `base`.
pub open spec fn files_mapped(
    store: &VmObjects,
    main: Program,
    interp: Option<Program>,
    base: int,
) -> bool {
    let none: Entries = Seq::empty();
    let rs = program_list(main.parse, 0);
    &&& from_file(store, none, rs, rs.len() as int, base, main.vnode_id, main.path@)
    &&& with_regions(none, rs, rs.len() as int, base) matches Some((es, k)) && (
    interp matches Some(p) ==> {
        let is = program_list(p.parse, DL_INTERP_OFFSET as int);
        from_file(store, es, is, is.len() as int, base + k, p.vnode_id, p.path@)
    })
}

/// Map a program, its dynamic linker where it has one, and a stack.
pub fn build_image(
    pipeline: &mut ExecPipeline,
    store: &mut VmObjects,
    main: &Program,
    interp: Option<Program>,
) -> (r: Result<(), Errno>)
    requires
        old(pipeline).wf(),
        old(pipeline).vm.entries().len() == 0,
        old(pipeline).auxv@.len() == 0,
        old(store).wf(),
        program_fits(main.parse, 0),
        interp matches Some(p) ==> program_fits(p.parse, DL_INTERP_OFFSET as int),
        pages_in(main.parse, parse_of(interp)) < usize::MAX,
    ensures
        final(pipeline).wf(),
        final(store).wf(),
        final(pipeline).vm.pmap == old(pipeline).vm.pmap,
        store_grew(old(store), final(store)),
        final(pipeline).vm.timestamp == raised(
            old(pipeline).vm.timestamp,
            final(store).objects@.len() - old(store).objects@.len(),
        ),
        r is Ok ==> final(pipeline).entry == match interp {
            Some(p) => p.parse.entry + 0x20_0000_0000,
            None => main.parse.entry as int,
        },
        ({
            let base = old(store).objects@.len() as int;
            match image_entries(main.parse, parse_of(interp), base) {
                Err(e) => r == Err::<(), Errno>(e),
                Ok((es, k)) => {
                    &&& r == Ok::<(), Errno>(())
                    &&& final(pipeline).vm.entries() == es
                    &&& final(store).objects@.len() == base + k
                    &&& files_mapped(final(store), *main, interp, base)
                    &&& new_stack(final(store).objects@[base + k - 1])
                    &&& final(pipeline).entry == match interp {
                        Some(p) => p.parse.entry + DL_INTERP_OFFSET,
                        None => main.parse.entry as int,
                    }
                    &&& final(pipeline).brk.0 == page_ceil(
                        program_top(main.parse.segments@, main.parse.segments@.len() as int, 0),
                    )
                    &&& final(pipeline).auxv@ == program_auxv(main.parse, 0)
                    &&& final(pipeline).stack_obj matches Some(o) && o == base + k - 1
                        && final(store).has(o as int)
                },
            }
        }),
{
    let ghost base = store.objects@.len() as int;
    let ghost ts = pipeline.vm.timestamp;
    let ghost none: Entries = Seq::empty();
    let ghost rs = program_list(main.parse, 0);
    proof {
        assert(pipeline.vm.entries() =~= none);
    }
    match pipeline.with_segments(store, main.parse, main.vnode_id, main.path, 0) {
        Ok(_) => {},
        Err(e) => {
            assert(store_grew(old(store), store));
            return Err(e);
        },
    }
    let ghost s1 = *store;
    let ghost es = pipeline.vm.entries();
    assert(store_grew(old(store), &s1));
    assert(pipeline.auxv@ =~= program_auxv(main.parse, 0));
    let ghost linker = interp;
    if let Some(p) = interp {
        match pipeline.with_interp_segments(
            store,
            p.parse,
            p.vnode_id,
            p.path,
            DL_INTERP_OFFSET,
        ) {
            Ok(_) => {},
            Err(e) => {
                proof {
                    assert(store_grew(&s1, store));
                    lemma_grew_twice(old(store), &s1, store);
                    lemma_raised_twice(
                        ts,
                        s1.objects@.len() - base,
                        store.objects@.len() - s1.objects@.len(),
                    );
                }
                return Err(e);
            },
        }
        proof {
            assert(store_grew(&s1, store));
        }
    } else {
        proof {
            assert(s1.objects@.take(s1.objects@.len() as int) =~= s1.objects@);
            assert(s1.pagers@.take(s1.pagers@.len() as int) =~= s1.pagers@);
            assert(store_grew(&s1, store));
        }
    }
    let ghost s2 = *store;
    match pipeline.with_stack(store) {
        Ok(_) => {},
        Err(e) => {
            proof {
                lemma_grew_twice(old(store), &s1, store);
                lemma_raised_twice(
                    ts,
                    s1.objects@.len() - base,
                    s2.objects@.len() - s1.objects@.len(),
                );
            }
            return Err(e);
        },
    }
    proof {
        lemma_raised_twice(ts, s1.objects@.len() - base, s2.objects@.len() - s1.objects@.len());
        lemma_raised_twice(ts, s2.objects@.len() - base, store.objects@.len() - s2.objects@.len());
        assert(store.objects@.take(s2.objects@.len() as int) =~= s2.objects@);
        assert(store.pagers@.take(s2.pagers@.len() as int) =~= s2.pagers@);
        assert(store_grew(&s2, store));
        lemma_grew_twice(&s1, &s2, store);
        lemma_grew_twice(old(store), &s1, store);
        lemma_from_file_kept(
            &s1,
            store,
            none,
            rs,
            rs.len() as int,
            base,
            main.vnode_id,
            main.path@,
        );
        if let Some(p) = linker {
            let is = program_list(p.parse, DL_INTERP_OFFSET as int);
            lemma_from_file_kept(
                &s2,
                store,
                es,
                is,
                is.len() as int,
                s1.objects@.len() as int,
                p.vnode_id,
                p.path@,
            );
        }
    }
    Ok(())
}

/// The objects with one more handle to that of the signal trampoline.
pub open spec fn sigcode_taken(objs: Objects<PageRef>, sigcode: int) -> Objects<PageRef> {
    objs.update(
        sigcode,
        Some(Object { refs: ((objs[sigcode]->0).refs + 1) as usize, ..objs[sigcode]->0 }),
    )
}

/// Finish an address space: the end of the vector, the signal trampoline, and the first page
/// of the stack.
pub fn finish_image(
    pipeline: &mut ExecPipeline,
    store: &mut VmObjects,
    pool: &mut FramePool,
    cpu: usize,
    sigcode: usize,
    argv: &Vec<String>,
    envp: &Vec<String>,
) -> (r: Result<StackPage, Errno>)
    requires
        old(pipeline).wf(),
        old(store).wf(),
        old(pipeline).stack_obj matches Some(o) && old(store).has(o as int),
        old(store).has(sigcode as int),
        old(store).obj(sigcode as int).refs < usize::MAX,
        old(pipeline).vm.nentries < usize::MAX,
        range_free(old(pipeline).vm.entries(), SIGCODE_VA as int, SIGCODE_VA + 4096),
        old(pool).inv(),
        pool_holdable(old(pool)),
        cpu < NUM_MAGAZINES,
        old(pipeline).vm.pmap.stats.wired_count < usize::MAX,
        0 <= strings_low(argv@, envp@),
        slots(argv@.len() as int, envp@.len() as int, old(pipeline).auxv@.len() as int + 2) * 8
            <= usize::MAX,
    ensures
        final(pipeline).wf(),
        final(store).wf(),
        final(pool).inv(),
        pool_holdable(final(pool)),
        final(pipeline).entry == old(pipeline).entry,
        final(pipeline).brk == old(pipeline).brk,
        final(pipeline).stack_obj == old(pipeline).stack_obj,
        final(pipeline).auxv@ == old(pipeline).auxv@ + seq![
            AuxvEntry { atype: AT_RANDOM, value: 0 },
            AuxvEntry { atype: AT_NULL, value: 0 },
        ],
        final(pipeline).vm.entries() == old(pipeline).vm.entries().insert(
            rank(old(pipeline).vm.entries(), SIGCODE_VA as int),
            sigcode_entry(sigcode),
        ),
        final(store).pagers == old(store).pagers,
        final(pipeline).vm.timestamp == old(pipeline).vm.timestamp.wrapping_add(1),
        final(pipeline).vm.pmap.same_identity(&old(pipeline).vm.pmap),
        r matches Err(e) ==> e == Errno::Enomem,
        r matches Ok(p)
            ==> arguments_found(p.contents@, argv@, envp@, final(pipeline).auxv@, 0x3F_FFFF_E000, p.sp - 0x3F_FFFF_E000),
        exists|m: Pmap, q: FramePool, s: VmObjects, mid: FramePool, own: Result<
            (PhysAddr, bool),
            Errno,
        >|
            #![trigger page_owned(&s, final(store), &q, &mid, cpu as int, old(pipeline).stack_obj->0 as int, 15, own), trampoline_entered(&old(pipeline).vm.pmap, &m, old(pool), &q, cpu as int, lookup(old(store).objects@, sigcode as int, 0))]
            {
                &&& trampoline_entered(
                    &old(pipeline).vm.pmap,
                    &m,
                    old(pool),
                    &q,
                    cpu as int,
                    lookup(old(store).objects@, sigcode as int, 0),
                )
                &&& s.objects@ == sigcode_taken(old(store).objects@, sigcode as int)
                &&& page_owned(
                    &s,
                    final(store),
                    &q,
                    &mid,
                    cpu as int,
                    old(pipeline).stack_obj->0 as int,
                    15,
                    own,
                )
                &&& match own {
                    Err(_) => r is Err && final(pipeline).vm.pmap == m && *final(pool) == mid,
                    Ok((pa, _)) => {
                        &&& r matches Ok(p) ==> p.frame == pa
                        &&& stack_entered(
                            &m,
                            &final(pipeline).vm.pmap,
                            &mid,
                            final(pool),
                            cpu as int,
                            pa,
                        )
                    },
                }
            },
        ({
            let n = slots(argv@.len() as int, envp@.len() as int, old(pipeline).auxv@.len() as int + 2);
            &&& down16(strings_low(argv@, envp@)) < n * 8 ==> r is Err
            &&& down16(strings_low(argv@, envp@)) >= n * 8 && r is Err ==> forall|p: int| !#[trigger]
                final(pool).pool_free(p)
            &&& r matches Ok(p) ==> {
                let t = table_start(argv@, envp@, n * 8);
                let low = pushed(argv@, argv@.len() as int, 4080);
                &&& p.contents@.len() == 4096
                &&& rest_zero(p.contents@, argv@, envp@, t, n * 8)
                &&& p.sp == STACK_PAGE_VA + t
                &&& p.sp % 16 == 0
                &&& 0 <= t
                &&& strings_at(p.contents@, argv@, argv@.len() as int, 4080)
                &&& strings_at(p.contents@, envp@, envp@.len() as int, low)
                &&& words_at(
                    p.contents@,
                    t,
                    table(argv@, envp@, final(pipeline).auxv@, STACK_PAGE_VA as int),
                    n,
                )
            }
        }),
{
    pipeline.finalize_auxv();
    pipeline.with_sigcode(store, pool, cpu, sigcode);
    let ghost m = pipeline.vm.pmap;
    let ghost q = *pool;
    let ghost s = *store;
    proof {
        assert(s.objects@ == sigcode_taken(old(store).objects@, sigcode as int));
        let o = pipeline.stack_obj->0 as int;
        assert(live(store.objects@, o));
        assert(trampoline_entered(
            &old(pipeline).vm.pmap,
            &m,
            old(pool),
            &q,
            cpu as int,
            lookup(old(store).objects@, sigcode as int, 0),
        ));
    }
    let layout = StackLayout::build(argv, envp, &pipeline.auxv);
    let r = materialize_stack(pipeline, store, pool, cpu, &layout, argv, envp);
    proof {
        if r is Ok {
            let p = r->Ok_0;
            lemma_arguments_found(
                p.contents@,
                argv@,
                envp@,
                pipeline.auxv@,
                STACK_PAGE_VA as int,
                p.sp - STACK_PAGE_VA,
            );
        }
    }
    r
}

/// The address space of a program has an entry for every page of the program, for every page of its
/// dynamic linker, moved to where that is placed, and for the stack.
pub proof fn law_image_is_complete(
    main: &ElfParseResult,
    interp: Option<&ElfParseResult>,
    base: int,
    j: int,
)
    requires
        image_entries(main, interp, base) is Ok,
        0 <= j,
    ensures
        ({
            let es = (image_entries(main, interp, base)->Ok_0).0;
            &&& j < program_list(main, 0).len() ==> exists|x: int| #[trigger]
                serves(es, x, program_list(main, 0)[j])
            &&& interp matches Some(p) ==> j < program_list(p, 0x20_0000_0000).len() ==> exists|
                x: int,
            | #[trigger]
                serves(es, x, program_list(p, 0x20_0000_0000)[j])
            &&& exists|x: int|
                0 <= x < es.len() && (#[trigger] es[x]).lo == 0x3F_FFFE_F000 && es[x].hi
                    == 0x3F_FFFF_F000 && es[x].protection.0 == 11
        }),
{
    let rs = program_list(main, 0);
    let (e1, k1) = with_regions(Seq::empty(), rs, rs.len() as int, base)->0;
    let es = (image_entries(main, interp, base)->Ok_0).0;
    let (e2, k2) = match interp {
        None => (e1, 0int),
        Some(p) => {
            let is = program_list(p, DL_INTERP_OFFSET as int);
            with_regions(e1, is, is.len() as int, base + k1)->0
        },
    };
    let id = base + k1 + k2;
    let k = rank(e2, USER_STACK_TOP - USER_STACK_SIZE);
    lemma_rank_in_range(e2, USER_STACK_TOP - USER_STACK_SIZE);
    assert(es == e2.insert(k, stack_entry(id)));
    assert(es[k] == stack_entry(id));
    assert(es[k].lo == 0x3F_FFFE_F000);
    if j < rs.len() {
        law_ranges_are_mapped(Seq::empty(), rs, rs.len() as int, base, j);
        if let Some(p) = interp {
            let is = program_list(p, DL_INTERP_OFFSET as int);
            lemma_still_served(e1, is, is.len() as int, base + k1, rs[j]);
        }
        let x = choose|x: int| #[trigger] serves(e2, x, rs[j]);
        if x < k {
            assert(serves(es, x, rs[j]));
        } else {
            assert(serves(es, x + 1, rs[j]));
        }
    }
    if let Some(p) = interp {
        let is = program_list(p, DL_INTERP_OFFSET as int);
        if j < is.len() {
            law_ranges_are_mapped(e1, is, is.len() as int, base + k1, j);
            let x = choose|x: int| #[trigger] serves(e2, x, is[j]);
            if x < k {
                assert(serves(es, x, is[j]));
            } else {
                assert(serves(es, x + 1, is[j]));
            }
        }
    }
}

} // verus!
