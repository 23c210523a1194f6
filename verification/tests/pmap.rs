//! Address translation.
use rustos::hal::addr::{PhysAddr, VirtAddr, PAGE_SIZE};
use rustos::mm::allocator::frame_allocator::{
    alloc_raw_frame_sync, available_pages, frame_alloc_sync, frame_free, init_frame_allocator,
    FramePool,
};
use rustos::mm::allocator::types::PageRole;
use rustos::mm::pmap::asid::{alloc_asid, global_generation, AsidAllocator};
use rustos::mm::pmap::container::{PmapEntry, ShootdownToken};
use rustos::mm::pmap::pte::PteFlags;
use rustos::mm::pmap::range::range;
use rustos::mm::pmap::shootdown::{
    acknowledge, adaptive_flush, handle_shootdown_ipi, has_pending, ipi_broadcast_flush_all,
    leave_quiesce, pmap_shootdown, FlushPlan, IpiAction, ShootdownBatch, ShootdownRequest,
};
use rustos::mm::pmap::space::{
    pmap_activate, pmap_clear_modified, pmap_create, pmap_deactivate, pmap_destroy, pmap_enter,
    pmap_enter_range, pmap_extract, pmap_extract_with_flags, pmap_fault, pmap_is_modified,
    pmap_is_referenced, pmap_protect, pmap_remove, Pmap, MAX_CPUS,
};
use rustos::mm::vm::map::perm::MapPerm;

fn pool() -> FramePool {
    init_frame_allocator(PhysAddr::new(0x10_0000), PhysAddr::new(0x50_0000), 8)
}

fn create(pool: &mut FramePool) -> Pmap {
    let mut asids = AsidAllocator::new();
    pmap_create(pool, 0, &mut asids)
}

fn rw() -> MapPerm {
    MapPerm::R() | MapPerm::W()
}

#[test]
fn test_pmap_extract_only() {
    let mut pool = pool();
    let mut pmap = create(&mut pool);
    let frame = alloc_raw_frame_sync(&mut pool, 0, PageRole::PteL1).unwrap();

    let va = VirtAddr::new(0x1_0000_0000);
    pmap_enter(&mut pmap, &mut pool, 0, va, frame, rw(), false).unwrap();
    assert_eq!(pmap_extract(&pmap, va).unwrap(), frame);

    let va2 = VirtAddr::new(0x1_0000_1000);
    let frame2 = alloc_raw_frame_sync(&mut pool, 0, PageRole::PteL1).unwrap();
    pmap_enter(&mut pmap, &mut pool, 0, va2, frame2, MapPerm::R() | MapPerm::X(), false).unwrap();
    assert_eq!(pmap_extract(&pmap, va2).unwrap(), frame2);

    assert!(pmap_extract(&pmap, VirtAddr::new(0x1_0000_2000)).is_none());

    pmap_remove(&mut pmap, va, VirtAddr::new(va.as_u64() + PAGE_SIZE));
    assert!(pmap_extract(&pmap, va).is_none());
    assert_eq!(pmap_extract(&pmap, va2).unwrap(), frame2);

    pmap_destroy(&mut pmap, &mut pool, 0);
}

#[test]
fn the_tables_go_back_to_the_pool() {
    let mut pool = pool();
    let before = available_pages(&pool);
    let mut pmap = create(&mut pool);
    let frame = PhysAddr::new(0x77_7000);
    pmap_enter(&mut pmap, &mut pool, 0, VirtAddr::new(0x4000_0000), frame, rw(), false).unwrap();
    let tables = pmap.l0_tables.len() + pmap.l1_directories.len();
    assert!(tables >= 2);
    pmap_destroy(&mut pmap, &mut pool, 0);
    assert!(pmap.l0_tables.is_empty());
    // What the magazine of the processor holds is not counted.
    let held: usize = pool.magazines.iter().map(|m| m.len()).sum();
    assert!(available_pages(&pool) + held <= before);
    assert!(available_pages(&pool) + held + 1 >= before);
}

#[test]
fn an_address_within_a_page_keeps_its_offset() {
    let mut pool = pool();
    let mut pmap = create(&mut pool);
    let frame = PhysAddr::new(0x42_0000);
    pmap_enter(&mut pmap, &mut pool, 0, VirtAddr::new(0x5000), frame, rw(), false).unwrap();
    let (pa, flags) = pmap_extract_with_flags(&pmap, VirtAddr::new(0x5123)).unwrap();
    assert_eq!(pa.page_align_down(), frame);
    assert!(flags.contains(PteFlags::W()));
    assert!(!flags.contains(PteFlags::X()));
}

#[test]
fn taking_the_right_to_write_away() {
    let mut pool = pool();
    let mut pmap = create(&mut pool);
    let va = VirtAddr::new(0x5000);
    pmap_enter(&mut pmap, &mut pool, 0, va, PhysAddr::new(0x42_0000), rw(), false).unwrap();
    let flush = pmap_protect(&mut pmap, va, VirtAddr::new(0x6000), MapPerm::R()).unwrap();
    assert_eq!((flush.start, flush.end), (0x5000, 0x6000));
    let (_, flags) = pmap_extract_with_flags(&pmap, va).unwrap();
    assert!(flags.contains(PteFlags::R()));
    assert!(!flags.contains(PteFlags::W()));
}

#[test]
fn use_of_a_page_shows() {
    let mut pool = pool();
    let mut pmap = create(&mut pool);
    let va = VirtAddr::new(0x9000);
    pmap_enter(&mut pmap, &mut pool, 0, va, PhysAddr::new(0x42_0000), rw(), false).unwrap();
    assert!(pmap_is_referenced(&pmap, va));
    assert!(pmap_is_modified(&pmap, va));
    pmap_clear_modified(&mut pmap, va);
    assert!(!pmap_is_modified(&pmap, va));
    assert!(pmap_fault(&mut pmap, va, true));
    assert!(pmap_is_modified(&pmap, va));
    assert!(!pmap_fault(&mut pmap, VirtAddr::new(0xA000), false));
}

#[test]
fn activation_names_the_root() {
    let mut pool = pool();
    let mut asids = AsidAllocator::new();
    let mut pmap = pmap_create(&mut pool, 0, &mut asids);
    let satp = pmap_activate(&mut pmap, &mut asids, 2);
    assert_eq!(satp >> 60, 8);
    assert_eq!((satp >> 44) & 0xFFFF, pmap.asid as u64);
    assert_eq!((satp & 0xFFF_FFFF_FFFF) << 12, pmap.root.pa.as_u64());
    assert!(pmap.active[2]);
    assert_eq!(pmap_deactivate(&mut pmap, 2), pmap.asid);
    assert!(!pmap.active[2]);
}

#[test]
fn numbers_of_address_spaces_start_over() {
    let mut a = AsidAllocator::new();
    assert_eq!(alloc_asid(&mut a), (1, global_generation(&a)));
    let first = global_generation(&a);
    let mut last = 0;
    for _ in 0..65534 {
        last = alloc_asid(&mut a).0;
    }
    assert_eq!(last, 65535);
    assert_eq!(alloc_asid(&mut a), (1, first + 1));
}

#[test]
fn a_range_is_entered_page_by_page() {
    let mut pool = pool();
    let mut pmap = create(&mut pool);
    pmap_enter_range(&mut pmap, &mut pool, 0, 0x20_0000, 0x20_3000, rw()).unwrap();
    for i in 0..3 {
        let a = 0x20_0000 + i * 0x1000;
        assert_eq!(pmap_extract(&pmap, VirtAddr::new(a)), Some(PhysAddr::new(a)));
    }
    let items = range(&pmap.root, 0x20_0000, 0x20_3000);
    let vas: Vec<u64> = items.iter().map(|i| i.0.as_u64()).collect();
    assert_eq!(vas, vec![0x20_0000, 0x20_1000, 0x20_2000]);
}

#[test]
fn entries_are_occupied_or_vacant() {
    let mut pool = pool();
    let mut pmap = create(&mut pool);
    let va = VirtAddr::new(0x7000);
    match pmap.entry(va) {
        PmapEntry::Vacant(v) => {
            v.insert(&mut pmap, &mut pool, 0, PhysAddr::new(0x42_0000), MapPerm::R()).unwrap();
        }
        PmapEntry::Occupied(_) => panic!("nothing was mapped"),
    }
    match pmap.entry(va) {
        PmapEntry::Occupied(mut o) => {
            assert_eq!(o.pa(), PhysAddr::new(0x42_0000));
            o.promote(&mut pmap, rw());
        }
        PmapEntry::Vacant(_) => panic!("the page was mapped"),
    }
    assert!(pmap.get(va).unwrap().permits_write());
    // What is there already stays.
    let again = pmap.entry_or_insert(&mut pool, 0, va, PhysAddr::new(0x43_0000), MapPerm::R());
    assert_eq!(again, Ok(None));
    assert_eq!(pmap.get(va).unwrap().pa(), PhysAddr::new(0x42_0000));
    match pmap.entry(va) {
        PmapEntry::Occupied(o) => {
            assert_eq!(o.remove(&mut pmap).va(), va);
        }
        PmapEntry::Vacant(_) => panic!("the page was mapped"),
    }
    assert!(pmap.get(va).is_none());
}

#[test]
fn few_pages_are_flushed_one_by_one() {
    match adaptive_flush(0x1000, 0x3000, 5) {
        FlushPlan::Pages { vas, asid } => {
            assert_eq!(vas, vec![0x1000, 0x2000]);
            assert_eq!(asid, 5);
        }
        _ => panic!("two pages are flushed one by one"),
    }
    assert!(matches!(adaptive_flush(0x1000, 0x100_0000, 5), FlushPlan::Asid(5)));
}

#[test]
fn only_processors_that_use_the_space_are_asked() {
    let mut active = vec![false; MAX_CPUS];
    active[0] = true;
    active[3] = true;
    let s = pmap_shootdown(&active, 0, 0x1000, 0x2000, 7);
    assert_eq!(s.targets, vec![3]);
    assert!(matches!(s.local, FlushPlan::Pages { asid: 7, .. }));
    assert_eq!(ipi_broadcast_flush_all(4, 1), vec![0, 2, 3]);
}

#[test]
fn a_request_is_answered_once() {
    let mut slots: Vec<ShootdownRequest> = (0..MAX_CPUS).map(|_| ShootdownRequest::new()).collect();
    assert!(matches!(handle_shootdown_ipi(&mut slots, 1), IpiAction::Nothing));
    slots[1].post_range(0x1000, 0x2000, 9);
    assert!(has_pending(&slots, 1));
    match handle_shootdown_ipi(&mut slots, 1) {
        IpiAction::Flush(FlushPlan::Pages { vas, asid }) => {
            assert_eq!((vas, asid), (vec![0x1000], 9));
        }
        _ => panic!("one page is flushed"),
    }
    acknowledge(&mut slots, 1);
    assert!(slots[1].ack);
    assert!(matches!(handle_shootdown_ipi(&mut slots, 1), IpiAction::Nothing));
    slots[2].post_flush_all();
    assert!(matches!(handle_shootdown_ipi(&mut slots, 2), IpiAction::Flush(FlushPlan::All)));
}

#[test]
fn a_batch_parks_the_others_and_flushes_at_its_end() {
    let mut slots: Vec<ShootdownRequest> = (0..MAX_CPUS).map(|_| ShootdownRequest::new()).collect();
    let mut active = vec![false; MAX_CPUS];
    active[0] = true;
    active[2] = true;
    let mut batch = ShootdownBatch::new(&mut slots, &active, 0, 4);
    assert!(matches!(handle_shootdown_ipi(&mut slots, 2), IpiAction::Park));
    assert!(batch.quiesce.all_parked(&slots));
    batch.add(ShootdownToken(VirtAddr::new(0x8000)));
    match batch.flush_plan() {
        Some(FlushPlan::Pages { vas, asid }) => assert_eq!((vas, asid), (vec![0x8000], 4)),
        _ => panic!("one page is flushed"),
    }
    // The others are parked until the flush is done.
    assert!(has_pending(&slots, 2));
    batch.release(&mut slots);
    assert!(!slots[2].pending);
    leave_quiesce(&mut slots, 2);
    assert!(!slots[2].quiesce);
}

#[test]
fn a_batch_without_pages_flushes_nothing_and_releases() {
    let mut slots: Vec<ShootdownRequest> = (0..MAX_CPUS).map(|_| ShootdownRequest::new()).collect();
    let mut active = vec![false; MAX_CPUS];
    active[5] = true;
    let batch = ShootdownBatch::new(&mut slots, &active, 0, 4);
    assert!(has_pending(&slots, 5));
    assert!(!has_pending(&slots, 1));
    assert!(batch.flush_plan().is_none());
    batch.release(&mut slots);
    assert!(!has_pending(&slots, 5));
}

#[test]
fn many_pages_are_flushed_together() {
    let mut slots: Vec<ShootdownRequest> = (0..MAX_CPUS).map(|_| ShootdownRequest::new()).collect();
    let mut batch = ShootdownBatch::new(&mut slots, &vec![false; MAX_CPUS], 0, 4);
    for i in 0..17 {
        batch.add(ShootdownToken(VirtAddr::new(i * 4096)));
    }
    assert!(matches!(batch.flush_plan(), Some(FlushPlan::Asid(4))));
    batch.release(&mut slots);
}

/// How many frames can be had.
fn frames(pool: &mut FramePool) -> usize {
    let mut all = Vec::new();
    while let Some(f) = frame_alloc_sync(pool, 0) {
        all.push(f);
    }
    for f in &all {
        frame_free(pool, 0, *f);
    }
    all.len()
}

#[test]
fn tables_are_taken_as_needed_and_given_back() {
    let mut pool = pool();
    let mut asids = AsidAllocator::new();
    let n = frames(&mut pool);
    let mut pmap = pmap_create(&mut pool, 0, &mut asids);
    assert_eq!(frames(&mut pool), n - 2);
    let pa = PhysAddr::new(0x43_0000);
    let mut enter = |pmap: &mut Pmap, pool: &mut FramePool, va: u64| {
        pmap_enter(pmap, pool, 0, VirtAddr::new(va), pa, MapPerm::R(), false).unwrap();
    };
    // A table of each level, then none, then one of the last level.
    enter(&mut pmap, &mut pool, 0x4000_0000);
    assert_eq!((pmap.l1_directories.len(), pmap.l0_tables.len()), (2, 1));
    assert_eq!(frames(&mut pool), n - 4);
    enter(&mut pmap, &mut pool, 0x4000_1000);
    assert_eq!(frames(&mut pool), n - 4);
    enter(&mut pmap, &mut pool, 0x4020_0000);
    assert_eq!((pmap.l1_directories.len(), pmap.l0_tables.len()), (2, 2));
    assert_eq!(frames(&mut pool), n - 5);
    // All come back but the root.
    pmap_destroy(&mut pmap, &mut pool, 0);
    assert_eq!(frames(&mut pool), n - 1);
}
