//! Frames: the buddy lists, the magazines and the pool.
use rustos::hal::addr::PhysAddr;
use rustos::mm::allocator::buddy::BuddyAllocator;
use rustos::mm::allocator::frame_allocator::{
    alloc_raw_frame_sync, available_pages, frame_alloc_contiguous, frame_alloc_sync, frame_free,
    frame_free_contiguous, init_frame_allocator, FramePool,
};
use rustos::mm::allocator::magazine::{Magazine, MAGAZINE_CAPACITY};
use rustos::mm::allocator::types::{get_frame_meta, PageRole};

#[test]
fn new_magazine_is_empty() {
    let m = Magazine::new();
    assert!(m.is_empty());
    assert_eq!(m.len(), 0);
    assert!(!m.is_full());
}

#[test]
fn push_pop_single() {
    let mut m = Magazine::new();
    let addr = PhysAddr::new(0x1000);
    assert!(m.push(addr).is_ok());
    assert_eq!(m.len(), 1);
    let popped = m.pop().unwrap();
    assert_eq!(popped, addr);
    assert!(m.is_empty());
}

#[test]
fn push_pop_lifo_order() {
    let mut m = Magazine::new();
    let a1 = PhysAddr::new(0x1000);
    let a2 = PhysAddr::new(0x2000);
    let a3 = PhysAddr::new(0x3000);
    m.push(a1).unwrap();
    m.push(a2).unwrap();
    m.push(a3).unwrap();
    assert_eq!(m.pop().unwrap(), a3);
    assert_eq!(m.pop().unwrap(), a2);
    assert_eq!(m.pop().unwrap(), a1);
}

#[test]
fn push_full_returns_err() {
    let mut m = Magazine::new();
    for i in 0..MAGAZINE_CAPACITY {
        m.push(PhysAddr::new(i as u64 * 0x1000)).unwrap();
    }
    assert!(m.is_full());
    let overflow = PhysAddr::new(0xFFFF_0000);
    assert_eq!(m.push(overflow), Err(overflow));
}

#[test]
fn pop_empty_returns_none() {
    let mut m = Magazine::new();
    assert!(m.pop().is_none());
}

#[test]
fn refill_from_buddy() {
    let mut buddy = BuddyAllocator::new();
    buddy.init(PhysAddr::new(0x8000_0000), PhysAddr::new(0x8000_0000 + 64 * 4096));
    let mut m = Magazine::new();
    m.refill(&mut buddy, 8);
    assert_eq!(m.len(), 8);
}

#[test]
fn drain_to_buddy() {
    let mut buddy = BuddyAllocator::new();
    buddy.init(PhysAddr::new(0x8000_0000), PhysAddr::new(0x8000_0000 + 64 * 4096));
    let mut m = Magazine::new();
    m.refill(&mut buddy, 8);
    let before = buddy.available_pages();
    m.drain(&mut buddy);
    assert!(m.is_empty());
    assert_eq!(buddy.available_pages(), before + 8);
}

#[test]
fn drain_half() {
    let mut buddy = BuddyAllocator::new();
    buddy.init(PhysAddr::new(0x8000_0000), PhysAddr::new(0x8000_0000 + 64 * 4096));
    let mut m = Magazine::new();
    m.refill(&mut buddy, 10);
    m.drain_half(&mut buddy);
    assert_eq!(m.len(), 5);
}

fn pool_of(pages: u64) -> FramePool {
    init_frame_allocator(PhysAddr::new(0x10_0000), PhysAddr::new(0x10_0000 + pages * 4096), 8)
}

#[test]
fn blocks_are_split_and_joined_again() {
    let mut buddy = BuddyAllocator::new();
    buddy.init(PhysAddr::new(0x8000_0000), PhysAddr::new(0x8000_0000 + 64 * 4096));
    assert_eq!(buddy.total_pages(), 64);
    let a = buddy.alloc_block(0).unwrap();
    let b = buddy.alloc_block(0).unwrap();
    assert_ne!(a, b);
    assert_eq!(buddy.available_pages(), 62);
    buddy.free(b, 0);
    buddy.free(a, 0);
    assert_eq!(buddy.available_pages(), 64);
    // The whole range is one block again.
    let all = buddy.alloc_block(6).unwrap();
    assert_eq!(all, PhysAddr::new(0x8000_0000));
    assert!(buddy.alloc_block(0).is_none());
}

#[test]
fn allocation_and_release_leave_the_lists_as_they_were() {
    let mut buddy = BuddyAllocator::new();
    buddy.init(PhysAddr::new(0x8000_0000), PhysAddr::new(0x8000_0000 + 64 * 4096));
    let first = buddy.alloc_block(3).unwrap();
    buddy.free(first, 3);
    assert_eq!(buddy.alloc_block(3).unwrap(), first);
}

#[test]
fn all_given_back_in_any_order_restores_the_blocks() {
    // 45 pages from an odd one on: blocks of 1, 2, 4, 8, 16 and again 8, 4 and 2 pages.
    let start = 0x8000_1000;
    let mut buddy = BuddyAllocator::new();
    buddy.init(PhysAddr::new(start), PhysAddr::new(start + 45 * 4096));
    let mut out = Vec::new();
    for order in [2, 0, 3, 1, 0, 2, 0, 1] {
        out.push((buddy.alloc_block(order).unwrap(), order));
    }
    let held: usize = out.iter().map(|(_, k)| 1 << k).sum();
    assert_eq!(buddy.available_pages() + held, buddy.total_pages());
    for i in [3, 0, 5, 2, 3, 1, 1, 0] {
        let (block, order) = out.remove(i);
        buddy.free(block, order);
    }
    assert_eq!(buddy.available_pages(), buddy.total_pages());
    // As right after the start: one block of sixteen pages, and none larger.
    assert!(buddy.alloc_block(5).is_none());
    assert_eq!(buddy.alloc_block(4), Some(PhysAddr::new(0x8001_0000)));
    assert!(buddy.alloc_block(4).is_none());
    let mut eights = vec![buddy.alloc_block(3).unwrap(), buddy.alloc_block(3).unwrap()];
    eights.sort();
    assert_eq!(eights, vec![PhysAddr::new(0x8000_8000), PhysAddr::new(0x8002_0000)]);
    assert!(buddy.alloc_block(3).is_none());
}

#[test]
fn pages_add_up_over_several_ranges() {
    let mut buddy = BuddyAllocator::new();
    buddy.init(PhysAddr::new(0x8000_0000), PhysAddr::new(0x8000_0000 + 8 * 4096));
    let a = buddy.alloc_block(3).unwrap();
    buddy.init(PhysAddr::new(0x9000_0000), PhysAddr::new(0x9000_0000 + 4 * 4096));
    let b = buddy.alloc_block(1).unwrap();
    assert_eq!(buddy.total_pages(), 12);
    assert_eq!(buddy.available_pages(), 12 - 8 - 2);
    buddy.free(a, 3);
    assert_eq!(buddy.available_pages(), 12 - 2);
    buddy.free(b, 1);
    assert_eq!(buddy.available_pages(), 12);
}

#[test]
fn allocations_do_not_overlap() {
    let mut buddy = BuddyAllocator::new();
    buddy.init(PhysAddr::new(0x8000_0000), PhysAddr::new(0x8000_0000 + 16 * 4096));
    let a = buddy.alloc_block(2).unwrap().as_u64();
    let b = buddy.alloc_block(1).unwrap().as_u64();
    assert!(a + 4 * 4096 <= b || b + 2 * 4096 <= a);
}

#[test]
fn the_metadata_takes_the_first_pages() {
    // 272 page numbers of 8 bytes each fill one page.
    let pool = pool_of(16);
    assert_eq!(available_pages(&pool), 15);
    assert_eq!(pool.meta.len(), 0x110);
    assert!(get_frame_meta(&pool.meta, PhysAddr::new(0x10_0000 + 16 * 4096)).is_none());
}

#[test]
fn test_frame_alloc_sync_works() {
    let mut pool = pool_of(64);
    let f1 = frame_alloc_sync(&mut pool, 0).unwrap();
    frame_free(&mut pool, 0, f1);
    let f2 = frame_alloc_sync(&mut pool, 0).unwrap();
    assert_eq!(f1, f2);
    frame_free(&mut pool, 0, f2);
}

#[test]
fn a_frame_gets_its_role() {
    let mut pool = pool_of(64);
    let f = alloc_raw_frame_sync(&mut pool, 0, PageRole::KernelStack).unwrap();
    let meta = get_frame_meta(&pool.meta, f).unwrap();
    assert_eq!(meta.role(), PageRole::KernelStack);
    assert_eq!(meta.get_ref(), 1);
    assert_eq!(meta.phys(), f);
}

#[test]
fn the_last_frames_come_from_other_magazines() {
    let mut pool = pool_of(8);
    // One frame is left in the magazine of processor 1.
    let a = frame_alloc_sync(&mut pool, 1).unwrap();
    frame_free(&mut pool, 1, a);
    assert_eq!(pool.buddy.available_pages(), 6);
    // Processor 0 still gets all of them.
    let mut seen = Vec::new();
    for _ in 0..7 {
        seen.push(frame_alloc_sync(&mut pool, 0).unwrap());
    }
    assert!(frame_alloc_sync(&mut pool, 0).is_none());
    seen.sort();
    seen.dedup();
    assert_eq!(seen.len(), 7);
}

#[test]
fn adjacent_frames_are_taken_and_freed() {
    let mut pool = pool_of(64);
    let n = available_pages(&pool);
    let block = frame_alloc_contiguous(&mut pool, 2).unwrap();
    assert_eq!(block.as_u64() % (4 * 4096), 0);
    assert_eq!(available_pages(&pool), n - 4);
    frame_free_contiguous(&mut pool, block, 2);
    assert_eq!(available_pages(&pool), n);
    assert!(frame_alloc_contiguous(&mut pool, 2).is_some());
    assert!(frame_alloc_contiguous(&mut pool, 11).is_none());
}

#[test]
fn a_freed_frame_comes_next() {
    let mut pool = pool_of(64);
    let a = frame_alloc_sync(&mut pool, 0).unwrap();
    let b = frame_alloc_sync(&mut pool, 0).unwrap();
    frame_free(&mut pool, 0, a);
    assert_eq!(frame_alloc_sync(&mut pool, 0), Some(a));
    frame_free(&mut pool, 0, b);
    assert_eq!(frame_alloc_sync(&mut pool, 0), Some(b));
}

#[test]
fn roles_survive_as_bytes() {
    let all = [
        PageRole::Free,
        PageRole::PteL2,
        PageRole::PteL1,
        PageRole::PteL0,
        PageRole::UserAnon,
        PageRole::UserExec,
        PageRole::UserStack,
        PageRole::FileCache,
        PageRole::KernelStack,
        PageRole::PipeBuffer,
        PageRole::SigTrampoline,
        PageRole::DriverDma,
    ];
    for role in all {
        assert_eq!(PageRole::from(role.as_u8()), role);
    }
    assert_eq!(PageRole::from(200), PageRole::Free);
}
