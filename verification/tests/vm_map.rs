//! Areas of memory and what is mapped in them.
use rustos::hal::addr::{PhysAddr, VirtAddr};
use rustos::mm::vm::map::perm::MapPerm;
use rustos::mm::vm::pager::VnodePager;
use rustos::mm::vm::vm_map::{EntryFlags, VmArea, VmAreaType, VmError, VmMap, VmaIds};
use rustos::mm::vm::vm_object::{OwnedPage, VmObject, VmObjects};

struct World {
    store: VmObjects,
    ids: VmaIds,
    map: VmMap,
}

fn world() -> World {
    World { store: VmObjects::new(), ids: VmaIds::new(), map: VmMap::new() }
}

fn rw() -> MapPerm {
    MapPerm::R() | MapPerm::W()
}

impl World {
    fn make_vma(&mut self, start: u64, end: u64) -> VmArea {
        let obj = VmObject::new(&mut self.store, end - start);
        VmArea::new(
            &mut self.ids,
            VirtAddr::new(start),
            VirtAddr::new(end),
            rw(),
            obj,
            0,
            VmAreaType::Anonymous,
        )
    }

    fn insert(&mut self, start: u64, end: u64) -> Result<(), VmError> {
        let vma = self.make_vma(start, end);
        self.map.insert(vma)
    }
}

#[test]
fn insert_and_find() {
    let mut w = world();
    let vma = w.make_vma(0x1000, 0x3000);
    let id = vma.id;
    assert!(w.map.insert(vma).is_ok());
    let found = w.map.find_area(VirtAddr::new(0x1500)).unwrap();
    assert_eq!(found.id, id);
}

#[test]
fn find_at_boundaries() {
    let mut w = world();
    w.insert(0x1000, 0x3000).unwrap();
    assert!(w.map.find_area(VirtAddr::new(0x1000)).is_some());
    assert!(w.map.find_area(VirtAddr::new(0x2FFF)).is_some());
    assert!(w.map.find_area(VirtAddr::new(0x3000)).is_none());
    assert!(w.map.find_area(VirtAddr::new(0x0FFF)).is_none());
}

#[test]
fn insert_overlap_rejected() {
    let mut w = world();
    w.insert(0x1000, 0x3000).unwrap();
    let result = w.insert(0x2000, 0x4000);
    assert_eq!(result, Err(VmError::Overlap));
}

#[test]
fn insert_adjacent_ok() {
    let mut w = world();
    w.insert(0x1000, 0x2000).unwrap();
    assert!(w.insert(0x2000, 0x3000).is_ok());
}

#[test]
fn remove_existing() {
    let mut w = world();
    w.insert(0x1000, 0x3000).unwrap();
    assert!(w.map.remove(VirtAddr::new(0x1000)).is_some());
    assert!(w.map.find_area(VirtAddr::new(0x1500)).is_none());
}

#[test]
fn remove_nonexistent() {
    let mut w = world();
    assert!(w.map.remove(VirtAddr::new(0x1000)).is_none());
}

#[test]
fn multiple_vmas() {
    let mut w = world();
    w.insert(0x1000, 0x2000).unwrap();
    w.insert(0x3000, 0x4000).unwrap();
    w.insert(0x5000, 0x6000).unwrap();
    assert!(w.map.find_area(VirtAddr::new(0x1500)).is_some());
    assert!(w.map.find_area(VirtAddr::new(0x3500)).is_some());
    assert!(w.map.find_area(VirtAddr::new(0x5500)).is_some());
    assert!(w.map.find_area(VirtAddr::new(0x2500)).is_none());
}

#[test]
fn fork_creates_shadows() {
    let mut w = world();
    let obj = VmObject::new(&mut w.store, 4096);
    VmObject::insert_page(&mut w.store, obj, 0, OwnedPage::new_test(PhysAddr::new(0xA000)));
    let vma = VmArea::new(
        &mut w.ids,
        VirtAddr::new(0x1000),
        VirtAddr::new(0x2000),
        rw(),
        obj,
        0,
        VmAreaType::Anonymous,
    );
    w.map.insert(vma).unwrap();

    let child_map = w.map.fork(&mut w.store, &mut w.ids);
    let child_vma = child_map.find_area(VirtAddr::new(0x1000)).unwrap();
    let parent_vma = w.map.find_area(VirtAddr::new(0x1000)).unwrap();
    assert_ne!(child_vma.id, parent_vma.id);
    assert_eq!(w.store.get(child_vma.object).resident_count(), 0);
}

#[test]
fn vma_ids_are_unique() {
    let mut w = world();
    let v1 = w.make_vma(0x1000, 0x2000);
    let v2 = w.make_vma(0x3000, 0x4000);
    let v3 = w.make_vma(0x5000, 0x6000);
    assert_ne!(v1.id, v2.id);
    assert_ne!(v2.id, v3.id);
    assert_ne!(v1.id, v3.id);
}

#[test]
fn iter_all_vmas() {
    let mut w = world();
    w.insert(0x1000, 0x2000).unwrap();
    w.insert(0x3000, 0x4000).unwrap();
    let count = w.map.iter().len();
    assert_eq!(count, 2);
}

#[test]
fn fork_shadow_has_backing_chain() {
    let mut w = world();
    let obj = VmObject::new(&mut w.store, 8192);
    VmObject::insert_page(&mut w.store, obj, 0, OwnedPage::new_test(PhysAddr::new(0xDEAD_0000)));
    VmObject::insert_page(&mut w.store, obj, 1, OwnedPage::new_test(PhysAddr::new(0xBEEF_0000)));
    let vma = VmArea::new(
        &mut w.ids,
        VirtAddr::new(0x1000),
        VirtAddr::new(0x3000),
        rw(),
        obj,
        0,
        VmAreaType::Anonymous,
    );
    w.map.insert(vma).unwrap();

    let child_map = w.map.fork(&mut w.store, &mut w.ids);
    let child_obj = child_map.find_area(VirtAddr::new(0x1000)).unwrap().object;
    assert_eq!(VmObject::shadow_depth(&w.store, child_obj), 1);
    assert_eq!(
        VmObject::lookup_page(&w.store, child_obj, 0).unwrap(),
        PhysAddr::new(0xDEAD_0000)
    );
    assert_eq!(
        VmObject::lookup_page(&w.store, child_obj, 1).unwrap(),
        PhysAddr::new(0xBEEF_0000)
    );
}

#[test]
fn fork_preserves_vma_count() {
    let mut w = world();
    w.insert(0x1000, 0x2000).unwrap();
    w.insert(0x3000, 0x4000).unwrap();
    w.insert(0x5000, 0x6000).unwrap();
    let child = w.map.fork(&mut w.store, &mut w.ids);
    assert_eq!(child.iter().len(), 3);
}

#[test]
fn insert_invalid_range_rejected() {
    let mut w = world();
    let obj = VmObject::new(&mut w.store, 4096);
    let vma = VmArea::new(
        &mut w.ids,
        VirtAddr::new(0x2000),
        VirtAddr::new(0x1000),
        MapPerm::R(),
        obj,
        0,
        VmAreaType::Anonymous,
    );
    assert!(w.map.insert(vma).is_err());
    assert_eq!(w.map.insert(vma), Err(VmError::InvalidRange));
}

#[test]
fn removing_the_middle_leaves_two_parts() {
    let mut w = world();
    w.insert(0x10000, 0x14000).unwrap();
    let removed = w.map.remove_range(
        &mut w.store,
        &mut w.ids,
        VirtAddr::new(0x11000),
        VirtAddr::new(0x12000),
    );
    assert_eq!(removed.len(), 1);
    let left = w.map.iter();
    assert_eq!(left.len(), 2);
    assert_eq!((left[0].start, left[0].end), (0x10000, 0x11000));
    assert_eq!((left[1].start, left[1].end), (0x12000, 0x14000));
    assert!(w.map.find_area(VirtAddr::new(0x11800)).is_none());
}

#[test]
fn offsets_matter_only_where_a_part_starts_inside() {
    let mut w = world();
    let mut vma = w.make_vma(0x10000, 0x14000);
    vma.file_offset = u64::MAX - 0x1000;
    vma.obj_offset = u64::MAX;
    w.map.insert(vma).unwrap();
    // The part that stays starts where the area did.
    let removed = w.map.remove_range(
        &mut w.store,
        &mut w.ids,
        VirtAddr::new(0x12000),
        VirtAddr::new(0x14000),
    );
    assert_eq!(removed.len(), 1);
    let left = w.map.iter();
    assert_eq!(left.len(), 1);
    assert_eq!((left[0].start, left[0].end), (0x10000, 0x12000));
    assert_eq!((left[0].file_offset, left[0].obj_offset), (u64::MAX - 0x1000, u64::MAX));
}

#[test]
fn protecting_the_middle_makes_three_parts() {
    let mut w = world();
    w.insert(0x10000, 0x14000).unwrap();
    w.map.protect_range(
        &mut w.store,
        &mut w.ids,
        VirtAddr::new(0x11000),
        VirtAddr::new(0x12000),
        MapPerm::R(),
    );
    assert_eq!(w.map.iter().len(), 3);
    assert_eq!(w.map.find_area(VirtAddr::new(0x11000)).unwrap().prot, MapPerm::R());
    assert_eq!(w.map.find_area(VirtAddr::new(0x10000)).unwrap().prot, rw());
    assert_eq!(w.map.find_area(VirtAddr::new(0x13fff)).unwrap().prot, rw());
    let ids: Vec<u64> = w.map.iter().iter().map(|a| a.id).collect();
    assert!(ids[0] != ids[1] && ids[1] != ids[2] && ids[0] != ids[2]);
}

#[test]
fn a_gap_is_found_from_the_top() {
    let mut w = world();
    let first = w.map.find_free_area_topdown(0x2000).unwrap();
    assert_eq!(first, VirtAddr::new(0x3F_FFF0_0000 - 0x2000));
    w.insert(first.as_u64(), first.as_u64() + 0x2000).unwrap();
    let second = w.map.find_free_area_topdown(0x1000).unwrap();
    assert_eq!(second, VirtAddr::new(first.as_u64() - 0x1000));
    assert!(w.map.find_free_area_topdown(0x40_0000_0000).is_none());
    // A hole that is large enough comes before what lies below it.
    w.insert(first.as_u64() - 0x8000, first.as_u64() - 0x3000).unwrap();
    let hole = VirtAddr::new(first.as_u64() - 0x3000);
    assert_eq!(w.map.find_free_area_topdown(0x3000).unwrap(), hole);
    let below = VirtAddr::new(first.as_u64() - 0x8000 - 0x4000);
    assert_eq!(w.map.find_free_area_topdown(0x4000).unwrap(), below);
}

#[test]
fn file_areas_know_their_file() {
    let mut w = world();
    let obj = VmObject::new(&mut w.store, 0x2000);
    let vnode = VnodePager { vnode_id: 7, path: String::from("/bin/sh"), base_offset: 0, valid_bytes: 0x1800 };
    let vma = VmArea::new_file_backed(
        &mut w.ids,
        VirtAddr::new(0x4000),
        VirtAddr::new(0x6000),
        MapPerm::R(),
        obj,
        0,
        &vnode,
        0x1000,
        0x1800,
    );
    assert_eq!(vma.vnode, Some(7));
    assert_eq!(vma.file_offset, 0x1000);
    assert_eq!(vma.pindex_for(VirtAddr::new(0x5000)), 1);
    assert_eq!(vma.translate_to_obj_index(VirtAddr::new(0x4000)), 0);
    assert_eq!(vma.pindex_for(VirtAddr::new(0x5123)), 2);
    assert!(vma.contains(VirtAddr::new(0x5fff)));
    assert!(!vma.contains(VirtAddr::new(0x6000)));
}

#[test]
fn a_deep_copy_gives_the_child_objects_of_its_own() {
    let mut w = world();
    w.insert(0x1000, 0x2000).unwrap();
    let child = w.map.fork_deep_copy(&mut w.store, &mut w.ids);
    let mine = w.map.find_area(VirtAddr::new(0x1000)).unwrap().object;
    let theirs = child.find_area(VirtAddr::new(0x1000)).unwrap().object;
    assert_ne!(mine, theirs);
    assert!(w.store.get(theirs).backing().is_none());
}

#[test]
fn flags_can_be_taken_away() {
    let mut w = world();
    let mut vma = w.make_vma(0x1000, 0x2000);
    vma.flags = EntryFlags::NEEDS_COPY();
    assert!(vma.needs_copy());
    vma.clear_needs_copy();
    assert!(!vma.needs_copy());
    assert!(!vma.is_in_transition());
}
