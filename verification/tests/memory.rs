//! Address maps, page faults and the copies of a fork.
use rustos::hal::addr::{PhysAddr, VirtAddr};
use rustos::hal::errno::Errno;
use rustos::mm::allocator::frame_allocator::{alloc_raw_frame_sync, init_frame_allocator, FramePool};
use rustos::mm::allocator::types::{get_frame_meta, PageRole};
use rustos::mm::pmap::asid::AsidAllocator;
use rustos::mm::pmap::pte::PteFlags;
use rustos::mm::pmap::shootdown::{ShootdownBatch, ShootdownRequest};
use rustos::mm::pmap::space::{pmap_create, pmap_extract, pmap_extract_with_flags, TlbRange, MAX_CPUS};
use rustos::mm::vm::fault::{
    resolve_user_fault, sync_fault_handler, FaultResult, PageFaultAccessType, PageWork,
};
use rustos::mm::vm::fault_async::{
    fault_finish, fault_lookup, fault_snapshot, revalidate_vma, AsyncStep,
};
use rustos::mm::vm::map::address_map::VmMap;
use rustos::mm::vm::map::entry::{CowState, VmInherit, VmMapEntry, VmMapping};
use rustos::mm::vm::map::heap::SIGCODE_VA;
use rustos::mm::vm::map::perm::MapPerm;
use rustos::mm::vm::object::{Grab, VObjIndex, VmObject, VmObjects};
use rustos::mm::vm::page_daemon::{
    dirty_objects, flush_done, hold_dirty, maybe_wake_page_daemon, plan_page_out, DaemonState,
};
use rustos::mm::vm::page_ref::PageRef;
use rustos::mm::vm::pager::{PageFill, PageStore};

struct World {
    pool: FramePool,
    asids: AsidAllocator,
    store: VmObjects,
    map: VmMap,
}

fn world() -> World {
    let mut pool = init_frame_allocator(PhysAddr::new(0x10_0000), PhysAddr::new(0x50_0000), 8);
    let mut asids = AsidAllocator::new();
    let pmap = pmap_create(&mut pool, 0, &mut asids);
    World { pool, asids, store: VmObjects::new(), map: VmMap::new(pmap) }
}

fn rw() -> MapPerm {
    MapPerm::R() | MapPerm::W() | MapPerm::U()
}

fn at(a: u64) -> VirtAddr {
    VirtAddr::new(a)
}

impl World {
    fn anon(&mut self, start: u64, end: u64, perm: MapPerm) -> usize {
        let object = VmObject::new_anon(&mut self.store, end - start);
        self.map
            .map(at(start), at(end), perm, VmMapping::AnonPrivate { object, offset: 0 })
            .unwrap();
        object
    }

    fn fault(&mut self, va: u64, access: PageFaultAccessType) -> FaultResult {
        resolve_user_fault(&mut self.map, &mut self.store, &mut self.pool, 0, at(va), access).result
    }
}

#[test]
fn test_mmap_munmap() {
    let mut w = world();
    let object = VmObject::new_anon(&mut w.store, 1);
    let vma = VmMapEntry::new(
        at(0x1000_0000),
        at(0x1000_1000),
        VmMapping::AnonPrivate { object, offset: 0 },
        rw(),
    );
    w.map.insert_entry(vma).unwrap();
    assert!(w.map.lookup(at(0x1000_0000)).is_some());
    let (gone, flush) = w.map.remove_range(&mut w.store, at(0x1000_0000), at(0x1000_1000));
    assert_eq!(gone.len(), 1);
    assert_eq!(flush, None);
    assert!(w.map.lookup(at(0x1000_0000)).is_none());
}

#[test]
fn what_overlaps_is_refused() {
    let mut w = world();
    w.anon(0x1000, 0x3000, rw());
    let object = VmObject::new_anon(&mut w.store, 0x1000);
    let mapping = VmMapping::AnonPrivate { object, offset: 0 };
    assert_eq!(w.map.map(at(0x2000), at(0x4000), rw(), mapping), Err(Errno::Einval));
    assert_eq!(w.map.map(at(0x5000), at(0x5000), rw(), mapping), Err(Errno::Einval));
    assert!(w.map.is_range_free(at(0x3000), at(0x9000)));
    assert!(!w.map.is_range_free(at(0x2fff), at(0x9000)));
}

#[test]
fn a_hole_splits_an_entry() {
    let mut w = world();
    let object = w.anon(0x10000, 0x14000, rw());
    w.map.remove_range(&mut w.store, at(0x11000), at(0x12000));
    let es = w.map.copy_entries();
    assert_eq!(es.len(), 2);
    assert_eq!(es[0].addr_range(), (at(0x10000), at(0x11000)));
    assert_eq!(es[1].addr_range(), (at(0x12000), at(0x14000)));
    // The right part goes on at its own place in the object.
    assert_eq!(es[1].mapping.offset(), 0x2000);
    assert_eq!(es[1].mapping.object(), Some(object));
    let mut walk = w.map.iter();
    assert_eq!(walk.next().unwrap().lo, 0x10000);
    assert_eq!(walk.next().unwrap().lo, 0x12000);
    assert!(walk.next().is_none());
}

#[test]
fn protection_changes_within_an_entry() {
    let mut w = world();
    w.anon(0x10000, 0x14000, rw());
    let ro = MapPerm::R() | MapPerm::U();
    w.map.protect_range(&mut w.store, at(0x11000), at(0x12000), ro).unwrap();
    assert_eq!(w.map.lookup_readonly(at(0x11800)).unwrap().protection, ro);
    assert_eq!(w.map.lookup_readonly(at(0x10800)).unwrap().protection, rw());
    assert_eq!(w.map.copy_entries().len(), 3);
    // Nothing is mapped in a part of this range.
    assert_eq!(
        w.map.protect_range(&mut w.store, at(0x13000), at(0x15000), ro),
        Err(Errno::Enomem)
    );
    assert_eq!(w.map.copy_entries().len(), 3);
}

#[test]
fn what_was_remembered_of_pages_is_flushed() {
    let mut w = world();
    let asid = w.map.pmap.asid;
    let range = |start: u64, end: u64| TlbRange { start, end, asid };
    w.anon(0x10000, 0x14000, rw());
    w.anon(0x20000, 0x21000, rw());
    w.anon(0x30000, 0x32000, rw());
    for va in [0x11000, 0x12000, 0x31000] {
        assert!(matches!(w.fault(va, PageFaultAccessType::WRITE()), FaultResult::Resolved));
    }
    let ro = MapPerm::R() | MapPerm::U();
    // Nothing was touched in the first page.
    assert_eq!(w.map.protect_range(&mut w.store, at(0x10000), at(0x11000), ro), Ok(None));
    assert_eq!(
        w.map.protect_range(&mut w.store, at(0x10000), at(0x12000), ro),
        Ok(Some(range(0x10000, 0x12000)))
    );
    let (gone, flush) = w.map.remove_range(&mut w.store, at(0x11000), at(0x13000));
    assert_eq!(gone.len(), 2);
    assert_eq!(flush, Some(range(0x11000, 0x13000)));
    assert!(pmap_extract(&w.map.pmap, at(0x12000)).is_none());
    let (e, flush) = w.map.remove_entry_containing(at(0x20800)).unwrap();
    assert_eq!((e.lo, flush), (0x20000, None));
    assert!(w.map.remove_entry_containing(at(0x20800)).is_none());
    let (entries, flushes) = w.map.clear();
    assert_eq!(entries.len(), 3);
    assert_eq!(flushes, vec![range(0x30000, 0x32000)]);
    assert!(pmap_extract(&w.map.pmap, at(0x31000)).is_none());
}

#[test]
fn free_areas_are_taken_from_the_top() {
    let mut w = world();
    let first = w.map.find_free_area_topdown(0x2000).unwrap();
    assert_eq!(first, at(0x3_FFFF_0000 - 0x2000));
    w.anon(first.as_u64(), first.as_u64() + 0x2000, rw());
    assert_eq!(w.map.find_free_area_topdown(0x1000).unwrap(), at(first.as_u64() - 0x1000));
    assert!(w.map.find_free_area_topdown(0x3_FFFF_0000).is_none());
}

#[test]
fn the_root_of_a_tree_knows_its_gap() {
    let mut w = world();
    w.anon(0x1_0000, 0x1_1000, rw());
    w.anon(0x2_0000, 0x2_1000, rw());
    w.anon(0x2_5000, 0x2_6000, rw());
    assert!(w.map.lookup(at(0x2_0000)).is_some());
    let root = w.map.tree.root.as_ref().unwrap();
    assert_eq!(root.entry.lo, 0x2_0000);
    assert_eq!(root.max_free, 0x2_0000 - 0x1_1000);
}

#[test]
fn offsets_are_counted_only_where_entries_are_cut() {
    let mut w = world();
    let object = VmObject::new_anon(&mut w.store, 0x3000);
    let offset = u64::MAX - 0x1fff;
    let mapping = VmMapping::FilePrivate { object, offset };
    w.map.map(at(0x1000), at(0x4000), rw(), mapping).unwrap();
    let (gone, _) = w.map.remove_range(&mut w.store, at(0x2000), at(0x4000));
    assert_eq!(gone[0].mapping.offset(), u64::MAX - 0xfff);
    assert_eq!(w.map.lookup(at(0x1000)).unwrap().end(), at(0x2000));
    // The last page but one of all addresses can be mapped.
    let object = VmObject::new_anon(&mut w.store, 0x1000);
    let top = u64::MAX - 0x1fff;
    let mapping = VmMapping::AnonPrivate { object, offset: 0 };
    w.map.map(at(top), at(top + 0x1000), rw(), mapping).unwrap();
    let (gone, flush) = w.map.remove_range(&mut w.store, at(top), at(top + 0x1000));
    assert_eq!((gone.len(), flush), (1, None));
}

#[test]
fn entries_can_be_bound_to_another_object() {
    let mut w = world();
    let first = w.anon(0x1000, 0x2000, rw());
    let other = VmObject::new_anon(&mut w.store, 0x1000);
    assert_eq!(w.map.rebind_store(at(0x1000), other), Ok(Some(first)));
    assert_eq!(w.map.lookup(at(0x1000)).unwrap().mapping.object(), Some(other));
    assert_eq!(w.map.rebind_store(at(0x9000), other), Err(Errno::Esrch));
    w.map.set_cow_state(at(0x1000), CowState::CopyOnWrite).unwrap();
    assert_eq!(w.map.lookup(at(0x1000)).unwrap().cow_state, CowState::CopyOnWrite);
}

#[test]
fn inheritance_follows_the_mapping() {
    let m = VmMapping::Shared { object: 3, offset: 0 };
    assert_eq!(m.inheritance(), VmInherit::Share);
    assert_eq!(VmMapping::AnonPrivate { object: 3, offset: 0 }.inheritance(), VmInherit::Copy);
    assert_eq!(VmMapping::Guard.inheritance(), VmInherit::Omit);
    assert_eq!(m.with_object(4).object(), Some(4));
    assert!(VmMapping::Guard.object().is_none());
}

#[test]
fn the_heap_grows_and_shrinks() {
    let mut w = world();
    w.map.grow_heap(&mut w.store, at(0x20000), at(0x22000)).unwrap();
    assert_eq!(w.map.lookup(at(0x21000)).unwrap().addr_range(), (at(0x20000), at(0x22000)));
    w.map.grow_heap(&mut w.store, at(0x22000), at(0x25000)).unwrap();
    assert_eq!(w.map.copy_entries().len(), 1);
    assert_eq!(w.map.lookup(at(0x21000)).unwrap().end(), at(0x25000));
    w.fault(0x23000, PageFaultAccessType::WRITE());
    let asid = w.map.pmap.asid;
    let (gone, pages, flush) =
        w.map.shrink_heap(&mut w.store, at(0x25000), at(0x21000)).unwrap();
    assert_eq!((gone.len(), pages.len()), (0, 1));
    assert_eq!(pages[0].0, 3);
    assert_eq!(flush, Some(TlbRange { start: 0x21000, end: 0x25000, asid }));
    assert_eq!(w.map.lookup(at(0x20000)).unwrap().end(), at(0x21000));
    assert!(w.map.lookup(at(0x21000)).is_none());
    let (gone, pages, flush) =
        w.map.shrink_heap(&mut w.store, at(0x21000), at(0x20000)).unwrap();
    assert_eq!((gone.len(), pages.len(), flush), (1, 0, None));
}

#[test]
fn the_heap_does_not_grow_into_what_is_there() {
    let mut w = world();
    w.map.grow_heap(&mut w.store, at(0x20000), at(0x22000)).unwrap();
    w.anon(0x23000, 0x24000, rw());
    assert_eq!(w.map.grow_heap(&mut w.store, at(0x22000), at(0x25000)), Err(Errno::Einval));
    assert_eq!(w.map.lookup(at(0x20000)).unwrap().end(), at(0x22000));
    w.map.grow_heap(&mut w.store, at(0x22000), at(0x23000)).unwrap();
    assert_eq!(w.map.lookup(at(0x20000)).unwrap().end(), at(0x23000));
}

#[test]
fn the_trampoline_is_mapped_at_its_place() {
    let mut w = world();
    let sigcode = VmObject::new_anon(&mut w.store, 0x1000);
    let frame = alloc_raw_frame_sync(&mut w.pool, 0, PageRole::SigTrampoline).unwrap();
    VmObject::insert_page(&mut w.store, sigcode, VObjIndex::new(0), PageRef::new(frame));
    w.map.map_sigcode(&mut w.store, &mut w.pool, 0, sigcode);
    let e = w.map.lookup(at(SIGCODE_VA)).unwrap();
    assert_eq!(e.protection, MapPerm::R() | MapPerm::X() | MapPerm::U());
    assert_eq!(pmap_extract(&w.map.pmap, at(SIGCODE_VA)), Some(frame));
}

#[test]
fn an_anonymous_fault_gets_a_zeroed_page() {
    let mut w = world();
    let object = w.anon(0x3000_0000, 0x3000_1000, rw());
    let f = sync_fault_handler(
        &mut w.map,
        &mut w.store,
        &mut w.pool,
        0,
        at(0x3000_0000),
        PageFaultAccessType::READ(),
    );
    assert!(matches!(f.result, FaultResult::Resolved));
    let pa = VmObject::lookup_page(&w.store, object, VObjIndex::new(0)).unwrap();
    assert!(matches!(f.work, PageWork::Zero(p) if p == pa));
    assert_eq!(pmap_extract(&w.map.pmap, at(0x3000_0000)), Some(pa));
}

#[test]
fn nothing_is_entered_over_the_pages_of_the_devices() {
    let mut w = world();
    w.anon(0x1000_0000, 0x1000_1000, rw());
    assert!(matches!(
        w.fault(0x1000_0000, PageFaultAccessType::READ()),
        FaultResult::Error(Errno::Enomem)
    ));
}

#[test]
fn test_cow_fault() {
    let mut w = world();
    let parent = VmObject::new_anon(&mut w.store, 0x1000);
    let frame = alloc_raw_frame_sync(&mut w.pool, 0, PageRole::UserAnon).unwrap();
    VmObject::insert_page(&mut w.store, parent, VObjIndex::new(0), PageRef::new(frame));
    w.store.retain(parent);
    let shadow = VmObject::new_shadow(&mut w.store, parent, 0x1000);
    w.map
        .map(
            at(0x2000_0000),
            at(0x2000_1000),
            rw(),
            VmMapping::AnonPrivate { object: shadow, offset: 0 },
        )
        .unwrap();
    let f = sync_fault_handler(
        &mut w.map,
        &mut w.store,
        &mut w.pool,
        0,
        at(0x2000_0000),
        PageFaultAccessType::WRITE(),
    );
    assert!(matches!(f.result, FaultResult::Resolved));
    assert!(w.store.get(shadow).has_page(VObjIndex::new(0)));
    let now = VmObject::lookup_page(&w.store, shadow, VObjIndex::new(0)).unwrap();
    if let PageWork::Copy { from, to } = f.work {
        assert_eq!((from, to), (frame, now));
        assert_ne!(frame, now);
    } else {
        // Nothing else used the page: it was moved.
        assert_eq!(frame, now);
    }
}

#[test]
fn faults_outside_or_against_the_protection_fail() {
    let mut w = world();
    w.anon(0x1000, 0x2000, MapPerm::R() | MapPerm::U());
    assert!(matches!(
        w.fault(0x5000, PageFaultAccessType::READ()),
        FaultResult::Error(Errno::Efault)
    ));
    assert!(matches!(
        w.fault(0x1000, PageFaultAccessType::WRITE()),
        FaultResult::Error(Errno::Efault)
    ));
    assert!(matches!(w.fault(0x1000, PageFaultAccessType::READ()), FaultResult::Resolved));
    assert_eq!(PageFaultAccessType::WRITE().name(), "WRITE");
}

#[test]
fn pages_of_a_file_need_the_file() {
    let mut w = world();
    let object = VmObject::new_file(&mut w.store, 5, String::from("/bin/sh"), 0x2000);
    w.map
        .map(
            at(0x1000),
            at(0x3000),
            MapPerm::R() | MapPerm::U(),
            VmMapping::FilePrivate { object, offset: 0 },
        )
        .unwrap();
    assert!(matches!(w.fault(0x2000, PageFaultAccessType::READ()), FaultResult::NeedsAsyncIO));

    let t = fault_snapshot(&w.map, at(0x2000)).unwrap();
    assert_eq!(t.index, VObjIndex::new(1));
    assert!(revalidate_vma(&w.map, &t).is_some());
    let (step, _) = fault_lookup(&mut w.map, &mut w.store, &mut w.pool, 0, &t);
    let frame = match step {
        AsyncStep::Fill { frame, fill: Some(PageFill::File { offset, keep }) } => {
            assert_eq!((offset, keep), (0x1000, 0x1000));
            frame
        }
        _ => panic!("the page is read from the file"),
    };
    let flush = fault_finish(&mut w.map, &mut w.store, &mut w.pool, 0, &t, frame, true).unwrap();
    let asid = w.map.pmap.asid;
    assert_eq!(flush, Some(TlbRange { start: 0x2000, end: 0x3000, asid }));
    assert_eq!(pmap_extract(&w.map.pmap, at(0x2000)), Some(frame));
    assert_eq!(VmObject::lookup_page(&w.store, object, VObjIndex::new(1)), Some(frame));
}

#[test]
fn a_page_that_cannot_be_read_is_given_back() {
    let mut w = world();
    let object = VmObject::new_file(&mut w.store, 5, String::from("/bin/sh"), 0x1000);
    w.map
        .map(
            at(0x1000),
            at(0x2000),
            MapPerm::R() | MapPerm::U(),
            VmMapping::FilePrivate { object, offset: 0 },
        )
        .unwrap();
    let t = fault_snapshot(&w.map, at(0x1000)).unwrap();
    let (step, _) = fault_lookup(&mut w.map, &mut w.store, &mut w.pool, 0, &t);
    let frame = match step {
        AsyncStep::Fill { frame, .. } => frame,
        AsyncStep::Done(_) => panic!("the page is read from the file"),
    };
    let r = fault_finish(&mut w.map, &mut w.store, &mut w.pool, 0, &t, frame, false);
    assert_eq!(r, Err(Errno::Eio));
    assert!(pmap_extract(&w.map.pmap, at(0x1000)).is_none());
    assert_eq!(get_frame_meta(&w.pool.meta, frame).unwrap().get_ref(), 0);
    assert_eq!(fault_snapshot(&w.map, at(0x9000)).err(), Some(Errno::Efault));
}

#[test]
fn a_fork_keeps_what_both_see_and_takes_the_right_to_write() {
    let mut w = world();
    w.anon(0x1000, 0x3000, rw());
    assert!(matches!(w.fault(0x1000, PageFaultAccessType::WRITE()), FaultResult::Resolved));
    let pa = pmap_extract(&w.map.pmap, at(0x1000)).unwrap();

    let child_pmap = pmap_create(&mut w.pool, 0, &mut w.asids);
    let mut child = VmMap::new(child_pmap);
    let mut slots: Vec<ShootdownRequest> = (0..MAX_CPUS).map(|_| ShootdownRequest::new()).collect();
    let active = vec![false; MAX_CPUS];
    let mut batch = ShootdownBatch::new(&mut slots, &active, 0, w.map.pmap.asid);
    w.map
        .cow_fork_into(&mut child, &mut w.store, &mut w.pool, 0, &mut batch)
        .unwrap();
    assert_eq!(batch.dirty_vas, vec![0x1000]);
    assert!(batch.flush_plan().is_some());
    batch.release(&mut slots);

    let mine = w.map.lookup(at(0x1000)).unwrap().mapping.object().unwrap();
    let theirs = child.lookup(at(0x1000)).unwrap().mapping.object().unwrap();
    assert_ne!(mine, theirs);
    assert_eq!(VmObject::lookup_page(&w.store, mine, VObjIndex::new(0)), Some(pa));
    assert_eq!(VmObject::lookup_page(&w.store, theirs, VObjIndex::new(0)), Some(pa));
    for pmap in [&w.map.pmap, &child.pmap] {
        let (p, flags) = pmap_extract_with_flags(pmap, at(0x1000)).unwrap();
        assert_eq!(p, pa);
        assert!(!flags.contains(PteFlags::W()));
    }

    // The child writes: it gets a page of its own.
    let f = resolve_user_fault(
        &mut child,
        &mut w.store,
        &mut w.pool,
        0,
        at(0x1000),
        PageFaultAccessType::WRITE(),
    );
    assert!(matches!(f.result, FaultResult::Resolved));
    let now = pmap_extract(&child.pmap, at(0x1000)).unwrap();
    assert_ne!(now, pa);
    assert!(matches!(f.work, PageWork::Copy { from, to } if from == pa && to == now));
    assert_eq!(VmObject::lookup_page(&w.store, mine, VObjIndex::new(0)), Some(pa));
}

#[test]
fn a_fork_without_frames_leaves_the_pages_to_faults() {
    let mut w = world();
    w.anon(0x1000, 0x3000, rw());
    w.fault(0x1000, PageFaultAccessType::WRITE());
    w.fault(0x2000, PageFaultAccessType::WRITE());
    let child_pmap = pmap_create(&mut w.pool, 0, &mut w.asids);
    let mut child = VmMap::new(child_pmap);
    // No frame is left for the child's table.
    while alloc_raw_frame_sync(&mut w.pool, 0, PageRole::UserAnon).is_some() {}
    let mut slots: Vec<ShootdownRequest> = (0..MAX_CPUS).map(|_| ShootdownRequest::new()).collect();
    let active = vec![false; MAX_CPUS];
    let mut batch = ShootdownBatch::new(&mut slots, &active, 0, w.map.pmap.asid);
    w.map
        .cow_fork_into(&mut child, &mut w.store, &mut w.pool, 0, &mut batch)
        .unwrap();
    assert_eq!(batch.dirty_vas, vec![0x1000, 0x2000]);
    batch.release(&mut slots);
    assert!(child.lookup(at(0x1000)).is_some());
    assert!(pmap_extract(&child.pmap, at(0x1000)).is_none());
    assert!(pmap_extract(&child.pmap, at(0x2000)).is_none());
    let (_, flags) = pmap_extract_with_flags(&w.map.pmap, at(0x2000)).unwrap();
    assert!(!flags.contains(PteFlags::W()));
}

#[test]
fn dirty_pages_are_written_back() {
    let mut w = world();
    let object = VmObject::new_file(&mut w.store, 5, String::from("/data"), 0x1800);
    let frame = match VmObject::grab_for_fault(&mut w.store, &mut w.pool, 0, object, VObjIndex::new(1)) {
        Grab::New(pa) => pa,
        _ => panic!("the page is new"),
    };
    // A new object is clean, and the new frame has one reference and is held.
    assert!(!w.store.get(object).is_dirty());
    let meta = get_frame_meta(&w.pool.meta, frame).unwrap();
    assert_eq!((meta.role(), meta.get_ref()), (PageRole::UserAnon, 1));
    assert!(meta.is_exclusive_busied());
    let (r, _) = VmObject::fetch_done(&mut w.pool.meta, frame, true);
    assert_eq!(r, Ok(frame));
    VmObject::bump_generation(&mut w.store, object);
    assert!(w.store.get(object).is_dirty());
    assert_eq!(dirty_objects(&w.store, &vec![object]), vec![object]);
    let i = (frame.as_u64() / 4096) as usize;
    w.pool.meta[i].set_dirty();
    assert_eq!(
        w.store.get(object).collect_dirty_pages(&w.pool.meta),
        vec![(VObjIndex::new(1), frame)]
    );

    let held = hold_dirty(w.store.get(object), &mut w.pool.meta);
    assert_eq!(held.len(), 1);
    assert!(w.pool.meta[i].is_shared_busied());
    match plan_page_out(&w.store, object, held[0].index) {
        PageStore::File { offset, len } => assert_eq!((offset, len), (0x1000, 0x800)),
        PageStore::Nothing => panic!("the page is within the file"),
    }
    assert!(matches!(plan_page_out(&w.store, object, VObjIndex::new(2)), PageStore::Nothing));

    let mut daemon = DaemonState::new();
    maybe_wake_page_daemon(&mut daemon);
    flush_done(&mut w.store, object, &mut w.pool.meta, &mut daemon, held);
    assert!(!w.pool.meta[i].is_dirty());
    assert!(!w.pool.meta[i].is_shared_busied());
    assert!(!w.store.get(object).is_dirty());
    assert_eq!(daemon.dirty_pages, 0);
}

#[test]
fn the_daemon_is_woken_when_enough_is_dirty() {
    let mut daemon = DaemonState::new();
    assert!(!daemon.poll_wait(77));
    for _ in 0..63 {
        assert!(maybe_wake_page_daemon(&mut daemon).is_none());
    }
    assert_eq!(maybe_wake_page_daemon(&mut daemon), Some(77));
    assert!(daemon.poll_wait(77));
    assert!(!daemon.poll_wait(77));
}

#[test]
fn truncation_hands_pages_back() {
    let mut w = world();
    let object = VmObject::new_anon(&mut w.store, 0x3000);
    for i in 0..3 {
        VmObject::insert_page(
            &mut w.store,
            object,
            VObjIndex::new(i),
            PageRef::new(PhysAddr::new(0x1000 * (i + 1))),
        );
    }
    let pages: Vec<u64> = w.store.get(object).pages_iter().iter().map(|p| p.phys().as_u64()).collect();
    assert_eq!(pages, vec![0x1000, 0x2000, 0x3000]);
    let gone = VmObject::truncate_pages(&mut w.store, object, VObjIndex::new(1));
    assert_eq!(gone.iter().map(|p| p.0).collect::<Vec<u64>>(), vec![1, 2]);
    assert_eq!(w.store.get(object).resident_count(), 1);
    VmObject::set_size(&mut w.store, object, 0x1000);
    assert_eq!(w.store.get(object).size(), 0x1000);
    assert_eq!(w.store.get(object).pages_with_index()[0].0, 0);
}

#[test]
fn indices_count_pages() {
    assert_eq!(VObjIndex::from_bytes_floor(0x1fff), VObjIndex::new(1));
    assert_eq!(VObjIndex::from_bytes_ceil(0x1001), VObjIndex::new(2));
    assert_eq!(VObjIndex::new(3).to_bytes(), 0x3000);
    assert_eq!(VObjIndex::new(3).plus(2).minus(1), VObjIndex::new(4));
    assert_eq!(VObjIndex::new(9).distance_from(VObjIndex::new(4)), 5);
}

#[test]
fn test_iterative_drop_500() {
    let mut store = VmObjects::new();
    let mut current = VmObject::new_anon(&mut store, 4096);
    for _ in 0..200 {
        current = VmObject::new_shadow(&mut store, current, 4096);
    }
    store.release(current);
    assert!(store.objects.iter().all(|o| o.is_none()));
}

#[test]
fn test_fork_bomb_stress() {
    let mut w = world();
    let root = VmObject::new_anon(&mut w.store, 4 * 4096);
    for i in 0..4 {
        let frame = alloc_raw_frame_sync(&mut w.pool, 0, PageRole::UserAnon).unwrap();
        VmObject::insert_page(&mut w.store, root, VObjIndex::new(i), PageRef::new(frame));
    }
    let mut children: Vec<usize> = Vec::new();
    for _ in 0..32 {
        w.store.retain(root);
        children.push(VmObject::new_shadow(&mut w.store, root, 4 * 4096));
    }
    assert_eq!(w.store.get(root).shadow_count(), 32);
    let mut grandchildren: Vec<usize> = Vec::new();
    for c in &children {
        w.store.retain(*c);
        grandchildren.push(VmObject::new_shadow(&mut w.store, *c, 4 * 4096));
    }
    for c in children {
        w.store.release(c);
    }
    for g in grandchildren {
        for p in 0..4 {
            assert!(VmObject::lookup_page(&w.store, g, VObjIndex::new(p)).is_some());
        }
        w.store.release(g);
    }
    assert_eq!(w.store.get(root).shadow_count(), 0);
    for p in 0..4 {
        assert!(VmObject::lookup_page(&w.store, root, VObjIndex::new(p)).is_some());
    }
}

#[test]
fn a_guard_is_never_mapped() {
    let mut w = world();
    w.map.map(at(0x5000), at(0x6000), rw(), VmMapping::Guard).unwrap();
    for access in [PageFaultAccessType::READ(), PageFaultAccessType::WRITE()] {
        assert!(matches!(w.fault(0x5000, access), FaultResult::Error(Errno::Efault)));
    }
    assert!(pmap_extract(&w.map.pmap, at(0x5000)).is_none());
}
