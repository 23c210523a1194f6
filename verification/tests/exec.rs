//! Programs: their files, their memory and their stacks.
use rustos::hal::addr::{PhysAddr, VirtAddr};
use rustos::hal::errno::Errno;
use rustos::mm::allocator::frame_allocator::{alloc_raw_frame_sync, init_frame_allocator, FramePool};
use rustos::mm::allocator::types::PageRole;
use rustos::mm::pmap::asid::AsidAllocator;
use rustos::mm::pmap::space::{pmap_create, pmap_extract};
use rustos::mm::vm::map::heap::SIGCODE_VA;
use rustos::mm::vm::map::perm::MapPerm;
use rustos::mm::vm::object::{VObjIndex, VmObject, VmObjects};
use rustos::mm::vm::page_ref::PageRef;
use rustos::proc::elf::{elf_flags_to_mapperm, parse_elf_first_page, ExecContext};
use rustos::proc::exec::elf::{
    check_texts, interpret_headers, parse_elf, parse_header_and_phdrs, validate_header, ElfError,
    ElfHeader, ProgramHeader,
};
use rustos::proc::exec::exec_ctx::{ExecPipeline, STACK_PAGE_VA, USER_STACK_SIZE, USER_STACK_TOP};
use rustos::proc::exec::plain::{
    build_plain, first_interp, load_interp_into, load_regions, program_break, Linker,
};
use rustos::proc::exec::program::{build_image, finish_image, Program, DL_INTERP_OFFSET};
use rustos::mm::vm::map::entry::VmMapping;
use rustos::mm::vm::shadow::PagerRef;
use rustos::proc::exec::raw::{parse_elf_header, parse_phdrs};
use rustos::proc::exec::region::{check_program, elf_flags_to_perm, normalize_page_regions};
use rustos::proc::exec::shebang::{examine, parse_shebang, ExecStep};
use rustos::proc::exec::stack::{fill_stack_page, strings_fit, AuxvEntry, StackLayout};

fn put(b: &mut Vec<u8>, at: usize, n: usize, v: u64) {
    for i in 0..n {
        b[at + i] = (v >> (8 * i)) as u8;
    }
}

/// A 64-bit little-endian file with the given program headers (type, flags, offset, address,
/// bytes in the file, bytes in memory).
fn elf(e_type: u64, machine: u64, entry: u64, phdrs: &[(u64, u64, u64, u64, u64, u64)]) -> Vec<u8> {
    let mut b = vec![0u8; 4096];
    b[0..4].copy_from_slice(&[0x7f, b'E', b'L', b'F']);
    b[4] = 2;
    b[5] = 1;
    b[6] = 1;
    put(&mut b, 16, 2, e_type);
    put(&mut b, 18, 2, machine);
    put(&mut b, 20, 4, 1);
    put(&mut b, 24, 8, entry);
    put(&mut b, 32, 8, 64);
    put(&mut b, 52, 2, 64);
    put(&mut b, 54, 2, 56);
    put(&mut b, 56, 2, phdrs.len() as u64);
    for (i, p) in phdrs.iter().enumerate() {
        let at = 64 + 56 * i;
        put(&mut b, at, 4, p.0);
        put(&mut b, at + 4, 4, p.1);
        put(&mut b, at + 8, 8, p.2);
        put(&mut b, at + 16, 8, p.3);
        put(&mut b, at + 24, 8, p.3);
        put(&mut b, at + 32, 8, p.4);
        put(&mut b, at + 40, 8, p.5);
        put(&mut b, at + 48, 8, 0x1000);
    }
    b
}

/// Code, data with a zeroed tail, and a dynamic linker.
fn program() -> Vec<u8> {
    let mut b = elf(
        2,
        243,
        0x1_0100,
        &[
            (6, 4, 64, 0x1_0040, 56 * 4, 56 * 4),
            (3, 4, 0x400, 0x1_0400, 12, 12),
            (1, 5, 0, 0x1_0000, 0x1000, 0x1000),
            (1, 6, 0x1000, 0x1_1000, 0x100, 0x2000),
        ],
    );
    b[0x400..0x40c].copy_from_slice(b"/lib/ld.so\0x");
    b
}

struct World {
    pool: FramePool,
    asids: AsidAllocator,
    store: VmObjects,
}

fn world() -> World {
    World {
        pool: init_frame_allocator(PhysAddr::new(0x10_0000), PhysAddr::new(0x50_0000), 8),
        asids: AsidAllocator::new(),
        store: VmObjects::new(),
    }
}

impl World {
    fn pipeline(&mut self) -> ExecPipeline {
        ExecPipeline::new(pmap_create(&mut self.pool, 0, &mut self.asids))
    }

    /// The file behind a mapping: its number and path.
    fn file_of(&self, mapping: VmMapping) -> Option<(u64, String)> {
        match self.store.get(mapping.object()?).pager {
            Some(PagerRef::Vnode(i)) => {
                let pager = &self.store.pagers[i];
                Some((pager.vnode_id, pager.path.clone()))
            }
            _ => None,
        }
    }

    fn sigcode(&mut self) -> usize {
        let object = VmObject::new_anon(&mut self.store, 0x1000);
        let frame = alloc_raw_frame_sync(&mut self.pool, 0, PageRole::SigTrampoline).unwrap();
        VmObject::insert_page(&mut self.store, object, VObjIndex::new(0), PageRef::new(frame));
        object
    }
}

#[test]
fn a_program_is_parsed() {
    let p = parse_elf(&program()).unwrap();
    assert_eq!(p.entry, 0x1_0100);
    assert_eq!(p.segments.len(), 2);
    assert_eq!(p.segments[1].vaddr, 0x1_1000);
    assert_eq!((p.segments[1].filesz, p.segments[1].memsz, p.segments[1].flags), (0x100, 0x2000, 6));
    assert_eq!(p.interp, Some(String::from("/lib/ld.so")));
    assert_eq!((p.phdr_vaddr, p.phnum, p.phentsize), (0x1_0040, 4, 56));
    assert!(!p.is_dyn);
}

#[test]
fn files_of_other_kinds_are_refused() {
    assert!(matches!(parse_elf(b"hello from ext4"), Err(ElfError::ParseFailed(_))));
    assert_eq!(parse_elf(&elf(1, 243, 0, &[])).err(), Some(ElfError::UnsupportedType(1)));
    assert_eq!(parse_elf(&elf(2, 62, 0, &[])).err(), Some(ElfError::UnsupportedMachine(62)));
    let mut b = program();
    b.truncate(200);
    assert_eq!(
        parse_elf(&b).err(),
        Some(ElfError::PhdrOverflow { phdr_end: 64 + 4 * 56, buffer_len: 200 })
    );
    let far = elf(2, 243, 0, &[(3, 4, u64::MAX, 0, 2, 2)]);
    assert_eq!(parse_elf(&far).err(), Some(ElfError::RangeOverflow));
    assert!(parse_elf_first_page(&program()).is_ok());
    // Kind and machine are not looked at here.
    assert!(parse_elf_first_page(&elf(1, 243, 0, &[])).is_ok());
}

#[test]
fn big_endian_and_narrow_headers_are_read_too() {
    // A 32-bit file: numbers of four bytes at other places.
    let mut b = vec![0u8; 200];
    b[0..4].copy_from_slice(&[0x7f, b'E', b'L', b'F']);
    b[4] = 1;
    b[5] = 2;
    b[6] = 1;
    b[17] = 2;
    b[19] = 243;
    b[26] = 0x12;
    b[31] = 52;
    b[43] = 32;
    b[45] = 1;
    // One program header of 32 bytes: type, offset, address twice, sizes, flags.
    b[55] = 1;
    b[52 + 10] = 0x34;
    b[52 + 18] = 0x01;
    b[52 + 22] = 0x02;
    b[52 + 27] = 5;
    let (h, ps) = parse_header_and_phdrs(&b).unwrap();
    assert_eq!((h.class, h.data, h.e_entry), (1, 2, 0x1200));
    assert_eq!(ps.len(), 1);
    assert_eq!((ps[0].p_type, ps[0].p_vaddr, ps[0].p_flags), (1, 0x3400, 5));
    assert_eq!((ps[0].p_filesz, ps[0].p_memsz), (0x100, 0x200));
}

#[test]
fn headers_say_what_is_loaded() {
    let ehdr = ElfHeader {
        class: 2,
        data: 1,
        e_type: 3,
        e_machine: 243,
        e_entry: 0x77,
        e_phoff: 64,
        e_phentsize: 56,
        e_phnum: 1,
    };
    assert!(validate_header(&ehdr).is_ok());
    let load = ProgramHeader {
        p_type: 1,
        p_flags: 5,
        p_offset: 0,
        p_vaddr: 0x1000,
        p_filesz: 10,
        p_memsz: 20,
    };
    let text = ProgramHeader { p_type: 3, p_offset: 1, p_filesz: 3, ..load };
    assert!(check_texts(&vec![load, text]));
    let r = interpret_headers(b"xab\0", &ehdr, &vec![load, text]).unwrap();
    assert!(r.is_dyn);
    assert_eq!(r.interp, Some(String::from("ab")));
    assert_eq!(r.segments.len(), 1);
    // Bytes that are no text are no path.
    let r = interpret_headers(&[0, 0xff, 0xfe, 0], &ehdr, &vec![load, text]).unwrap();
    assert_eq!(r.interp, None);
    assert_eq!(first_interp(b"xab\0", &vec![load, text]), Some(String::from("ab")));
    assert!(!check_texts(&vec![ProgramHeader { p_offset: u64::MAX, ..text }]));
}

#[test]
fn headers_are_read_byte_by_byte() {
    let b = program();
    let h = parse_elf_header(&b).unwrap();
    assert_eq!((h.e_entry, h.e_phoff, h.e_phnum), (0x1_0100, 64, 4));
    let ps = parse_phdrs(&b, &h).unwrap();
    assert_eq!((ps[3].p_vaddr, ps[3].p_memsz), (0x1_1000, 0x2000));
    assert_eq!(parse_elf_header(&b[0..63]).err(), Some(Errno::Enoexec));
    assert_eq!(parse_elf_header(&elf(2, 62, 0, &[])).err(), Some(Errno::Enoexec));
    assert_eq!(parse_phdrs(&b[0..100], &h).err(), Some(Errno::Enoexec));
    // Both ways to read a header agree.
    let (g, gs) = parse_header_and_phdrs(&b).unwrap();
    assert_eq!(h, g);
    assert_eq!(ps, gs);
}

#[test]
fn rights_of_segments() {
    let u = MapPerm::U();
    assert_eq!(elf_flags_to_perm(5), MapPerm::R() | MapPerm::X() | u);
    assert_eq!(elf_flags_to_perm(6), MapPerm::R() | MapPerm::W() | u);
    assert_eq!(elf_flags_to_mapperm(4), MapPerm::R() | u);
}

#[test]
fn scripts_name_their_interpreter() {
    assert_eq!(
        parse_shebang(b"#! /bin/sh  -x \necho\n"),
        Some((String::from("/bin/sh"), Some(String::from("-x"))))
    );
    assert_eq!(parse_shebang(b"#!/bin/sh\n"), Some((String::from("/bin/sh"), None)));
    assert_eq!(parse_shebang(b"#!\n"), None);
    assert_eq!(parse_shebang(b"echo"), None);
    let argv = vec![String::from("s"), String::from("1")];
    match examine(b"#!/bin/sh -x\n", &String::from("/s"), &argv, 0) {
        ExecStep::Interpret { interp, argv } => {
            assert_eq!(interp, "/bin/sh");
            assert_eq!(argv, vec!["/bin/sh", "-x", "/s", "1"]);
        }
        _ => panic!("it is a script"),
    }
    assert!(matches!(
        examine(b"#!/bin/sh\n", &String::from("/s"), &argv, 4),
        ExecStep::Fail(Errno::Enoexec)
    ));
    assert!(matches!(
        examine(b"hello from ext4", &String::from("/hello.txt"), &argv, 0),
        ExecStep::Fail(Errno::Enoexec)
    ));
    assert!(matches!(
        examine(&program(), &String::from("/p"), &argv, 0),
        ExecStep::Run(p) if p.entry == 0x1_0100
    ));
}

#[test]
fn a_stack_holds_arguments_and_tables() {
    let argv = vec![String::from("ls"), String::from("-l")];
    let envp = vec![String::from("A=1")];
    assert!(strings_fit(&argv, &envp));
    let auxv = vec![AuxvEntry { atype: 6, value: 4096 }, AuxvEntry { atype: 0, value: 0 }];
    let layout = StackLayout::build(&argv, &envp, &auxv);
    assert_eq!(layout.n_slots, 1 + 3 + 2 + 4);
    let (page, sp) = fill_stack_page(&layout, &argv, &envp, 0x10000).unwrap();
    assert_eq!(page.len(), 4096);
    assert_eq!(sp % 16, 0);
    let at = (sp - 0x10000) as usize;
    // All but the table and the strings, "A=1", "-l" and "ls", is zero.
    let low = 4080 - 4 - 3 - 3;
    assert!(page[..at].iter().all(|b| *b == 0));
    assert!(page[at + layout.table_bytes..low].iter().all(|b| *b == 0));
    assert!(page[4080..].iter().all(|b| *b == 0));
    let word = |i: usize| {
        let mut v = 0u64;
        for k in 0..8 {
            v |= (page[at + 8 * i + k] as u64) << (8 * k);
        }
        v
    };
    let text = |a: u64| {
        let from = (a - 0x10000) as usize;
        let n = page[from..].iter().position(|c| *c == 0).unwrap();
        String::from_utf8(page[from..from + n].to_vec()).unwrap()
    };
    assert_eq!(word(0), 2);
    assert_eq!(text(word(1)), "ls");
    assert_eq!(text(word(2)), "-l");
    assert_eq!(word(3), 0);
    assert_eq!(text(word(4)), "A=1");
    assert_eq!(word(5), 0);
    assert_eq!((word(6), word(7)), (6, 4096));
    assert_eq!((word(8), word(9)), (0, 0));

    let long = vec!["x".repeat(5000)];
    assert!(!strings_fit(&long, &envp));
    // Strings that leave no room for the table.
    let wide = vec!["x".repeat(4060)];
    assert!(strings_fit(&wide, &vec![]));
    let layout = StackLayout::build(&wide, &vec![], &auxv);
    assert_eq!(fill_stack_page(&layout, &wide, &vec![], 0x10000).err(), Some(Errno::Enomem));
}

#[test]
fn a_program_gets_memory_and_a_stack() {
    let mut w = world();
    let mut p = w.pipeline();
    let parse = parse_elf(&program()).unwrap();
    assert!(check_program(&parse, 0));
    let regions = normalize_page_regions(&parse, 0);
    assert_eq!(regions[0].lo, 0x1_0000);
    let path = String::from("/bin/p");
    let linker = parse_elf(&elf(3, 243, 0x500, &[(1, 5, 0, 0, 0x800, 0x800)])).unwrap();
    assert!(check_program(&linker, DL_INTERP_OFFSET));
    let ld = String::from("/lib/ld.so");
    build_image(
        &mut p,
        &mut w.store,
        &Program { parse: &parse, vnode_id: 3, path: &path },
        Some(Program { parse: &linker, vnode_id: 4, path: &ld }),
    )
    .unwrap();
    // The linker runs first.
    assert_eq!(p.entry, DL_INTERP_OFFSET + 0x500);
    assert_eq!(p.brk, VirtAddr::new(0x1_3000));
    let code = p.vm.lookup(VirtAddr::new(0x1_0100)).unwrap();
    assert_eq!(code.protection, MapPerm::R() | MapPerm::X() | MapPerm::U());
    let data = p.vm.lookup(VirtAddr::new(0x1_2f00)).unwrap();
    assert_eq!(data.protection, MapPerm::R() | MapPerm::W() | MapPerm::U());
    assert!(p.vm.lookup(VirtAddr::new(DL_INTERP_OFFSET)).is_some());
    assert!(p.vm.lookup(VirtAddr::new(USER_STACK_TOP - 1)).is_some());
    assert!(p.vm.lookup(VirtAddr::new(USER_STACK_TOP - USER_STACK_SIZE)).is_some());
    // Each of them has its own file.
    let part = |p: &mut ExecPipeline, va: u64| p.vm.lookup(VirtAddr::new(va)).unwrap().mapping;
    let main_file = Some((3, String::from("/bin/p")));
    let ld_file = Some((4, String::from("/lib/ld.so")));
    assert_eq!(w.file_of(part(&mut p, 0x1_0100)), main_file);
    assert_eq!(w.file_of(part(&mut p, 0x1_1000)), main_file);
    assert_eq!(w.file_of(part(&mut p, DL_INTERP_OFFSET)), ld_file);
    assert_eq!(w.file_of(part(&mut p, USER_STACK_TOP - 1)), None);
    // The program headers are found through the table on the stack.
    assert!(p.auxv.contains(&AuxvEntry { atype: 3, value: 0x1_0040 }));
    assert!(p.auxv.contains(&AuxvEntry { atype: 9, value: 0x1_0100 }));

    let sigcode = w.sigcode();
    let argv = vec![String::from("p")];
    let page = finish_image(&mut p, &mut w.store, &mut w.pool, 0, sigcode, &argv, &vec![]).unwrap();
    assert_eq!(pmap_extract(&p.vm.pmap, VirtAddr::new(STACK_PAGE_VA)), Some(page.frame));
    assert_eq!(page.sp % 16, 0);
    assert_eq!(page.contents[(page.sp - STACK_PAGE_VA) as usize], 1);
    assert!(pmap_extract(&p.vm.pmap, VirtAddr::new(SIGCODE_VA)).is_some());
    // The page belongs to the stack, its last bytes are zero, and the trampoline has one more
    // handle.
    let stack = part(&mut p, USER_STACK_TOP - 1).object().unwrap();
    assert_eq!(VmObject::lookup_page(&w.store, stack, VObjIndex::new(15)), Some(page.frame));
    assert_eq!(&page.contents[4080..], &[0u8; 16]);
    assert_eq!(w.store.get(sigcode).refs, 2);
}

#[test]
fn parts_of_a_program_that_overlap_are_refused() {
    let mut w = world();
    let mut p = w.pipeline();
    let b = elf(2, 243, 0, &[(1, 5, 0, USER_STACK_TOP - 0x1000, 0x100, 0x100)]);
    let parse = parse_elf(&b).unwrap();
    let path = String::from("/bin/p");
    let r = build_image(
        &mut p,
        &mut w.store,
        &Program { parse: &parse, vnode_id: 3, path: &path },
        None,
    );
    assert_eq!(r, Err(Errno::Enomem));
}

#[test]
fn only_what_overflows_is_refused() {
    let header = |p_offset: u64, p_vaddr: u64, p_filesz: u64, p_memsz: u64| {
        vec![ProgramHeader { p_type: 1, p_flags: 4, p_offset, p_vaddr, p_filesz, p_memsz }]
    };
    let last = u64::MAX - 0xfff;
    // The end of the last page is the last that there is, or one more.
    assert!(load_regions(&header(0, last - 0x1000, 0, 0x1000), 0).is_some());
    assert!(load_regions(&header(0, last - 0x1000, 0, 0x1001), 0).is_none());
    // The file may be at any offset, and hold more than the part.
    assert!(load_regions(&header(last, 0x1000, 0x10, 0x9000), 0).is_some());
    assert!(load_regions(&header(0, 0x1000, u64::MAX, 0x1000), 0).is_some());
    assert!(load_regions(&header(1, 0x1000, u64::MAX, 0x1000), 0).is_none());

    let mut w = world();
    let ld = elf(3, 243, 0x500, &[(1, 5, 0, 0, 0x800, 0x800), (1, 4, last, 0x1_0000, 0, 0x2000)]);
    let mut p = w.pipeline();
    let path = String::from("/lib/ld.so");
    let entry = load_interp_into(&mut p.vm, &mut w.store, &ld, 4, &path, 0x10_0000).unwrap();
    assert_eq!(entry, 0x10_0500);
    let part = p.vm.lookup(VirtAddr::new(0x11_1000)).unwrap();
    assert_eq!(part.addr_range(), (VirtAddr::new(0x11_0000), VirtAddr::new(0x11_2000)));
    assert_eq!(part.mapping.offset(), last);
    assert_eq!(p.vm.timestamp, 2);
}

#[test]
fn a_program_is_loaded_part_by_part() {
    let mut w = world();
    let b = program();
    let h = parse_elf_header(&b).unwrap();
    let ps = parse_phdrs(&b, &h).unwrap();
    let rs = load_regions(&ps, 0).unwrap();
    assert_eq!(rs.len(), 2);
    assert_eq!(program_break(&rs), VirtAddr::new(0x1_3000));
    assert!(load_regions(&ps, u64::MAX).is_none());

    let (eh, eps) = parse_elf_first_page(&b).unwrap();
    let ctx = ExecContext::build(&b, &eh, &eps, VirtAddr::new(0));
    assert_eq!(ctx.user_entry, VirtAddr::new(0x1_0100));
    assert_eq!(ctx.interp_path, Some(String::from("/lib/ld.so")));
    assert_eq!(ctx.brk, VirtAddr::new(0x1_3000));
    assert_eq!(ctx.phdr_vaddr, VirtAddr::new(0x1_0040));

    let ld = elf(3, 243, 0x500, &[(1, 5, 0, 0, 0x800, 0x800)]);
    let mut p = w.pipeline();
    let path = String::from("/bin/p");
    let ld_path = String::from("/lib/ld.so");
    build_plain(
        &mut p,
        &mut w.store,
        &ctx,
        3,
        &path,
        Some(Linker { page0: &ld, vnode_id: 4, path: &ld_path }),
    )
    .unwrap();
    assert_eq!(p.entry, DL_INTERP_OFFSET + 0x500);
    assert!(p.vm.lookup(VirtAddr::new(0x1_0000)).is_some());
    assert!(p.vm.lookup(VirtAddr::new(0x1_2fff)).is_some());
    let part = |p: &mut ExecPipeline, va: u64| p.vm.lookup(VirtAddr::new(va)).unwrap().mapping;
    assert_eq!(w.file_of(part(&mut p, 0x1_0000)), Some((3, path)));
    assert_eq!(w.file_of(part(&mut p, DL_INTERP_OFFSET)), Some((4, ld_path)));
}
