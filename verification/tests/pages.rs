//! Pages, those who wait for them, and copies to and from user memory.
use rustos::hal::addr::PhysAddr;
use rustos::hal::errno::Errno;
use rustos::mm::uio::{chunk_size, uiomove, Uio, UioDir, UioStep};
use rustos::mm::vm::page::{ExclusiveBusyGuard, SharedBusyGuard, Teardown, VmPage};
use rustos::mm::vm::page_wait::{PageAcquire, PageWait};
use rustos::mm::vm::pager::{AnonPager, PageFill, PageStore, Pager, VnodePager};
use rustos::mm::vm::wait_queue::{register_waker, remove_waker, wake_all, WaitQueues};

#[test]
fn a_page_has_one_writer_or_many_readers() {
    let mut p = VmPage::new_test(PhysAddr::new(0x1000));
    assert!(p.try_acquire_steady_state());
    assert!(p.try_acquire_steady_state());
    assert!(!p.try_acquire_exclusive());
    p.release_steady_state();
    p.release_steady_state();
    assert!(p.try_acquire_exclusive());
    assert!(!p.try_acquire_steady_state());
    assert!(!p.try_acquire_exclusive());
    p.mark_wanted();
    assert!(p.release_exclusive());
    assert!(!p.is_exclusive_busied());
}

#[test]
fn a_writer_can_become_a_reader() {
    let mut p = VmPage::new_test(PhysAddr::new(0x1000));
    assert!(p.try_acquire_exclusive());
    assert!(!p.downgrade_exclusive_to_shared());
    assert!(p.is_shared_busied());
    assert!(!p.is_exclusive_busied());
}

#[test]
fn a_frame_is_freed_by_the_last_user() {
    let mut p = VmPage::new_cached_test(PhysAddr::new(0x1000));
    p.refs = VmPage::VPRC_OBJREF;
    assert!(p.try_wire_mapped());
    assert!(p.try_acquire_exclusive());
    // A mapping still uses the frame.
    assert!(matches!(p.teardown_from_object(), Teardown::Released { .. }));
    assert!(!p.try_wire_mapped());
    assert!(p.unwire_mapped());
}

#[test]
fn an_unmapped_frame_is_freed_at_once() {
    let mut p = VmPage::new_cached_test(PhysAddr::new(0x1000));
    p.refs = VmPage::VPRC_OBJREF;
    assert!(p.try_acquire_exclusive());
    assert!(matches!(p.teardown_from_object(), Teardown::FreeFrame));
}

#[test]
fn guards_hold_pages_of_the_table() {
    let mut table: Vec<VmPage> = (0..4).map(|i| VmPage::new_test(PhysAddr::new(i * 4096))).collect();
    let g = SharedBusyGuard::try_new(&mut table, PhysAddr::new(0x1000)).unwrap();
    assert_eq!(g.meta(&table).phys(), PhysAddr::new(0x1000));
    assert!(ExclusiveBusyGuard::try_new(&mut table, PhysAddr::new(0x1000)).is_none());
    g.release(&mut table);
    let g = ExclusiveBusyGuard::try_new(&mut table, PhysAddr::new(0x1000)).unwrap();
    let (s, wake) = g.downgrade(&mut table);
    assert!(!wake);
    assert_eq!(s.phys(), PhysAddr::new(0x1000));
    s.release(&mut table);
    assert!(!table[1].is_shared_busied());
    assert!(SharedBusyGuard::try_new(&mut table, PhysAddr::new(0x9000)).is_none());
}

#[test]
fn valid_and_dirty_are_kept_apart() {
    let mut p = VmPage::new();
    p.set_valid();
    assert!(p.is_valid() && !p.is_dirty());
    p.set_dirty();
    p.clear_valid();
    assert!(!p.is_valid() && p.is_dirty());
    p.clear_dirty_all();
    assert!(!p.is_dirty());
}

#[test]
fn those_who_wait_are_woken_once() {
    let mut q = WaitQueues::new();
    register_waker(&mut q, 3, 10);
    register_waker(&mut q, 3, 11);
    register_waker(&mut q, 4, 12);
    remove_waker(&mut q, 3, 10);
    assert_eq!(wake_all(&mut q, 3), vec![11]);
    assert!(wake_all(&mut q, 3).is_empty());
    assert_eq!(wake_all(&mut q, 4), vec![12]);
}

#[test]
fn test_uiomove_short_read() {
    let r = uiomove(0x1000_0000, 128, UioDir::CopyIn, &vec![]).unwrap();
    assert_eq!(r.done, 128);
    assert_eq!(
        uiomove(0xDEAD_0000, 4096, UioDir::CopyIn, &vec![true]).err(),
        Some(Errno::Efault)
    );
    // The first part up to the end of its page was copied.
    let r = uiomove(0x1f00, 0x1000, UioDir::CopyOut, &vec![false, true]).unwrap();
    assert_eq!(r.done, 0x100);
}

#[test]
fn parts_end_with_pages() {
    assert_eq!(chunk_size(0x1ff0, 100), 16);
    assert_eq!(chunk_size(0x1000, 100), 100);
    assert_eq!(chunk_size(0x1000, 9000), 4096);
    let mut u = Uio::start(0x1ff0, 20, UioDir::CopyIn);
    assert!(matches!(u.next(), UioStep::Copy { off: 0, len: 16 }));
    assert!(u.chunk_done(false).is_none());
    assert!(matches!(u.next(), UioStep::Copy { off: 16, len: 4 }));
    assert!(u.chunk_done(false).is_none());
    assert!(matches!(u.next(), UioStep::Finished(Ok(r)) if r.done == 20));
}

#[test]
fn files_end_with_zeros() {
    let p = VnodePager {
        vnode_id: 1,
        path: String::from("/a"),
        base_offset: 0x2000,
        valid_bytes: 0x1800,
    };
    assert!(!p.is_anon());
    assert!(matches!(p.page_in(0x2000), PageFill::File { offset: 0x2000, keep: 0x1000 }));
    assert!(matches!(p.page_in(0x3000), PageFill::File { offset: 0x3000, keep: 0x800 }));
    assert!(matches!(p.page_in(0x4000), PageFill::Zero));
    assert!(matches!(p.page_out(0x3000, 5000), PageStore::File { offset: 0x3000, len: 4096 }));
    assert!(AnonPager.is_anon());
    assert!(matches!(AnonPager.page_in(0x1000), PageFill::Zero));
    assert!(matches!(AnonPager.page_out(0, 4096), PageStore::Nothing));
}

#[test]
fn a_page_is_waited_for() {
    let mut q = WaitQueues::new();
    let mut p = VmPage::new_test(PhysAddr::new(0x1000));
    assert!(p.try_acquire_exclusive());
    let mut a = PageAcquire::new();
    assert!(!a.acquire_exclusive_blocking(&mut p, &mut q, 1, 40));
    // The user of the page wakes the one who waits.
    assert!(p.release_exclusive());
    assert_eq!(wake_all(&mut q, 1), vec![40]);
    assert!(a.acquire_exclusive_blocking(&mut p, &mut q, 1, 40));
    assert!(p.is_exclusive_busied());

    let mut w = PageWait::new();
    assert!(!w.wait_for_exclusive_unlock(&mut p, &mut q, 1, 41));
    assert!(w.wait_for_exclusive_unlock(&mut p, &mut q, 1, 41));
    assert!(wake_all(&mut q, 1).is_empty());
}
