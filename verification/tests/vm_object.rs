//! Objects that hold pages by what is in them.
use rustos::hal::addr::PhysAddr;
use rustos::mm::vm::vm_object::{OwnedPage, PageOwnership, VmObject, VmObjects};

fn put(store: &mut VmObjects, id: usize, index: u64, pa: u64) {
    VmObject::insert_page(store, id, index, OwnedPage::new_test(PhysAddr::new(pa)));
}

fn look(store: &VmObjects, id: usize, index: u64) -> Option<PhysAddr> {
    VmObject::lookup_page(store, id, index)
}

/// A shadow, with a handle of its own to the parent.
fn shadow_of(store: &mut VmObjects, parent: usize, size: u64) -> usize {
    store.retain(parent);
    VmObject::new_shadow(store, parent, size)
}

fn collapse(store: &mut VmObjects, id: usize) -> Vec<PhysAddr> {
    VmObject::collapse(store, id).iter().map(|p| p.phys()).collect()
}

/// Make a chain of shadows of which only the last has a handle, and give that up.
fn drop_chain(store: &mut VmObjects, depth: u64, with_pages: bool) -> usize {
    let mut current = VmObject::new(store, 4096);
    for i in 0..depth {
        let shadow = shadow_of(store, current, 4096);
        if with_pages {
            put(store, shadow, i, (i + 1) * 0x1000);
        }
        store.release(current);
        current = shadow;
    }
    store.release(current).len()
}

#[test]
fn page_ownership_types() {
    let anon = OwnedPage::new_test(PhysAddr::new(0x1000));
    assert_eq!(anon.ownership, PageOwnership::Anonymous);
    let cached = OwnedPage::new_cached(PhysAddr::new(0x2000));
    assert_eq!(cached.ownership, PageOwnership::Cached);
}

#[test]
fn vm_object_new_object_is_empty() {
    let mut store = VmObjects::new();
    let obj = VmObject::new(&mut store, 4096);
    let r = store.get(obj);
    assert_eq!(r.size(), 4096);
    assert_eq!(r.resident_count(), 0);
    assert!(look(&store, obj, 0).is_none());
}

#[test]
fn vm_object_insert_and_lookup_page() {
    let mut store = VmObjects::new();
    let obj = VmObject::new(&mut store, 8192);
    put(&mut store, obj, 0, 0x1000);
    put(&mut store, obj, 1, 0x2000);
    assert_eq!(store.get(obj).resident_count(), 2);
    assert_eq!(look(&store, obj, 0).unwrap(), PhysAddr::new(0x1000));
    assert_eq!(look(&store, obj, 1).unwrap(), PhysAddr::new(0x2000));
    assert!(look(&store, obj, 2).is_none());
}

#[test]
fn vm_object_shadow_chain_creation() {
    let mut store = VmObjects::new();
    let parent = VmObject::new(&mut store, 4096);
    put(&mut store, parent, 0, 0x1000);
    let shadow = shadow_of(&mut store, parent, 4096);
    assert_eq!(store.get(shadow).resident_count(), 0);
    assert_eq!(look(&store, shadow, 0).unwrap(), PhysAddr::new(0x1000));
    assert_eq!(look(&store, parent, 0).unwrap(), PhysAddr::new(0x1000));
}

#[test]
fn vm_object_shadow_chain_lookup_iterative() {
    let mut store = VmObjects::new();
    let grandparent = VmObject::new(&mut store, 4096);
    put(&mut store, grandparent, 0, 0xA000);
    let parent = shadow_of(&mut store, grandparent, 4096);
    put(&mut store, parent, 1, 0xB000);
    let child = shadow_of(&mut store, parent, 4096);
    put(&mut store, child, 2, 0xC000);
    assert_eq!(look(&store, child, 2).unwrap(), PhysAddr::new(0xC000));
    assert_eq!(look(&store, child, 0).unwrap(), PhysAddr::new(0xA000));
}

#[test]
fn vm_object_iterative_drop_deep_chain_500() {
    let mut store = VmObjects::new();
    let freed = drop_chain(&mut store, 500, true);
    // Every page of the chain is handed back, and no object is left.
    assert_eq!(freed, 500);
    assert!(store.objects.iter().all(|o| o.is_none()));
}

#[test]
fn vm_object_iterative_drop_shared_stops_at_refcount() {
    let mut store = VmObjects::new();
    let parent = VmObject::new(&mut store, 4096);
    let shadow1 = shadow_of(&mut store, parent, 4096);
    let shadow2 = shadow_of(&mut store, parent, 4096);
    store.release(shadow1);
    assert_eq!(store.get(parent).refs, 2);
    store.release(shadow2);
    assert_eq!(store.get(parent).refs, 1);
}

#[test]
fn vm_object_insert_page_overwrites_existing() {
    let mut store = VmObjects::new();
    let obj = VmObject::new(&mut store, 4096);
    put(&mut store, obj, 0, 0x1000);
    put(&mut store, obj, 0, 0x2000);
    assert_eq!(look(&store, obj, 0).unwrap(), PhysAddr::new(0x2000));
}

#[test]
fn vm_object_iterative_drop_1000_deep() {
    let mut store = VmObjects::new();
    drop_chain(&mut store, 1000, false);
    assert!(store.objects.iter().all(|o| o.is_none()));
}

#[test]
fn vm_object_shadow_override_hides_parent_page() {
    let mut store = VmObjects::new();
    let parent = VmObject::new(&mut store, 4096);
    put(&mut store, parent, 0, 0xAAAA_0000);
    let shadow = shadow_of(&mut store, parent, 4096);
    put(&mut store, shadow, 0, 0xBBBB_0000);
    assert_eq!(look(&store, shadow, 0).unwrap(), PhysAddr::new(0xBBBB_0000));
    assert_eq!(look(&store, parent, 0).unwrap(), PhysAddr::new(0xAAAA_0000));
}

#[test]
fn vm_object_shadow_depth_reports_chain_length() {
    let mut store = VmObjects::new();
    let root = VmObject::new(&mut store, 4096);
    assert_eq!(VmObject::shadow_depth(&store, root), 0);
    let s1 = shadow_of(&mut store, root, 4096);
    assert_eq!(VmObject::shadow_depth(&store, s1), 1);
    let s2 = shadow_of(&mut store, s1, 4096);
    assert_eq!(VmObject::shadow_depth(&store, s2), 2);
    let s3 = shadow_of(&mut store, s2, 4096);
    assert_eq!(VmObject::shadow_depth(&store, s3), 3);
}

#[test]
fn vm_object_iterative_drop_600_deep() {
    let mut store = VmObjects::new();
    let freed = drop_chain(&mut store, 600, true);
    assert_eq!(freed, 600);
    assert!(store.objects.iter().all(|o| o.is_none()));
}

#[test]
fn vm_object_remove_page_decrements_resident_count() {
    let mut store = VmObjects::new();
    let obj = VmObject::new(&mut store, 4096);
    put(&mut store, obj, 0, 0x1000);
    put(&mut store, obj, 1, 0x2000);
    assert_eq!(store.get(obj).resident_count(), 2);
    let removed = VmObject::remove_page(&mut store, obj, 0);
    assert!(removed.is_some());
    assert_eq!(store.get(obj).resident_count(), 1);
}

#[test]
fn vm_object_remove_nonexistent_page_returns_none() {
    let mut store = VmObjects::new();
    let obj = VmObject::new(&mut store, 4096);
    assert!(VmObject::remove_page(&mut store, obj, 42).is_none());
    assert_eq!(store.get(obj).resident_count(), 0);
}

#[test]
fn vm_object_backing_returns_parent_ref() {
    let mut store = VmObjects::new();
    let parent = VmObject::new(&mut store, 4096);
    let shadow = shadow_of(&mut store, parent, 4096);
    assert!(store.get(shadow).backing().is_some());
    assert_eq!(store.get(shadow).backing_object(), Some(parent));
    let root = VmObject::new(&mut store, 4096);
    assert!(store.get(root).backing().is_none());
}

#[test]
fn vm_object_shadow_count_incremented_on_new_shadow() {
    let mut store = VmObjects::new();
    let parent = VmObject::new(&mut store, 4096);
    assert_eq!(store.get(parent).shadow_count(), 0);
    let s1 = shadow_of(&mut store, parent, 4096);
    assert_eq!(store.get(parent).shadow_count(), 1);
    let s2 = shadow_of(&mut store, parent, 4096);
    assert_eq!(store.get(parent).shadow_count(), 2);
    store.release(s1);
    assert_eq!(store.get(parent).shadow_count(), 1);
    store.release(s2);
    assert_eq!(store.get(parent).shadow_count(), 0);
}

#[test]
fn vm_object_collapse_migrates_pages_from_backing() {
    let mut store = VmObjects::new();
    let backing = VmObject::new(&mut store, 8192);
    put(&mut store, backing, 0, 0xA000);
    put(&mut store, backing, 1, 0xB000);
    let shadow = shadow_of(&mut store, backing, 8192);
    assert_eq!(store.get(backing).shadow_count(), 1);

    collapse(&mut store, shadow);
    assert_eq!(store.get(shadow).resident_count(), 2);
    assert_eq!(look(&store, shadow, 0).unwrap(), PhysAddr::new(0xA000));
    assert_eq!(look(&store, shadow, 1).unwrap(), PhysAddr::new(0xB000));
    assert!(store.get(shadow).backing().is_none());
}

#[test]
fn vm_object_collapse_frees_phantom_on_conflict() {
    let mut store = VmObjects::new();
    let backing = VmObject::new(&mut store, 8192);
    put(&mut store, backing, 0, 0xDEAD);
    put(&mut store, backing, 1, 0xBEEF);
    let shadow = shadow_of(&mut store, backing, 8192);
    put(&mut store, shadow, 0, 0xC000);

    let freed = collapse(&mut store, shadow);
    assert_eq!(freed, vec![PhysAddr::new(0xDEAD)]);
    assert_eq!(look(&store, shadow, 0).unwrap(), PhysAddr::new(0xC000));
    assert_eq!(look(&store, shadow, 1).unwrap(), PhysAddr::new(0xBEEF));
    assert_eq!(store.get(shadow).resident_count(), 2);
    assert!(store.get(shadow).backing().is_none());
    assert_eq!(store.get(backing).resident_count(), 0);
}

#[test]
fn vm_object_collapse_refuses_when_shadow_count_gt_1() {
    let mut store = VmObjects::new();
    let backing = VmObject::new(&mut store, 4096);
    put(&mut store, backing, 0, 0x1000);
    let s1 = shadow_of(&mut store, backing, 4096);
    let _s2 = shadow_of(&mut store, backing, 4096);
    assert_eq!(store.get(backing).shadow_count(), 2);

    collapse(&mut store, s1);
    assert_eq!(store.get(s1).resident_count(), 0);
    assert!(store.get(s1).backing().is_some());
}

#[test]
fn vm_object_collapse_adopts_grandparent() {
    let mut store = VmObjects::new();
    let grandparent = VmObject::new(&mut store, 4096);
    put(&mut store, grandparent, 0, 0xAAAA);
    let parent = shadow_of(&mut store, grandparent, 4096);
    put(&mut store, parent, 1, 0xBBBB);
    let child = shadow_of(&mut store, parent, 4096);
    assert_eq!(store.get(parent).shadow_count(), 1);
    assert_eq!(store.get(grandparent).shadow_count(), 1);

    collapse(&mut store, child);
    assert_eq!(store.get(child).resident_count(), 1);
    assert_eq!(look(&store, child, 1).unwrap(), PhysAddr::new(0xBBBB));
    assert_eq!(look(&store, child, 0).unwrap(), PhysAddr::new(0xAAAA));
    assert_eq!(VmObject::shadow_depth(&store, child), 1);
    assert_eq!(store.get(grandparent).shadow_count(), 1);
}

#[test]
fn vm_object_phantom_page_eliminated_by_collapse() {
    let mut store = VmObjects::new();
    let backing = VmObject::new(&mut store, 8192);
    put(&mut store, backing, 0, 0xF0F0);
    put(&mut store, backing, 1, 0xF1F1);
    let parent_shadow = shadow_of(&mut store, backing, 8192);
    let child_shadow = shadow_of(&mut store, backing, 8192);
    assert_eq!(store.get(backing).shadow_count(), 2);

    // The parent exits.
    store.release(parent_shadow);
    assert_eq!(store.get(backing).shadow_count(), 1);

    collapse(&mut store, child_shadow);
    assert_eq!(store.get(child_shadow).resident_count(), 2);
    assert_eq!(look(&store, child_shadow, 0).unwrap(), PhysAddr::new(0xF0F0));
    assert_eq!(look(&store, child_shadow, 1).unwrap(), PhysAddr::new(0xF1F1));
    assert!(store.get(child_shadow).backing().is_none());
    assert_eq!(store.get(backing).resident_count(), 0);
}

#[test]
fn vm_object_phantom_page_freed_when_child_has_cow_copy() {
    let mut store = VmObjects::new();
    let backing = VmObject::new(&mut store, 8192);
    put(&mut store, backing, 0, 0xF0F0);
    put(&mut store, backing, 1, 0xF1F1);
    let parent_shadow = shadow_of(&mut store, backing, 8192);
    let child_shadow = shadow_of(&mut store, backing, 8192);
    put(&mut store, child_shadow, 0, 0xC09F);

    store.release(parent_shadow);
    assert_eq!(store.get(backing).shadow_count(), 1);

    collapse(&mut store, child_shadow);
    assert_eq!(look(&store, child_shadow, 0).unwrap(), PhysAddr::new(0xC09F));
    assert_eq!(look(&store, child_shadow, 1).unwrap(), PhysAddr::new(0xF1F1));
    assert_eq!(store.get(child_shadow).resident_count(), 2);
    assert!(store.get(child_shadow).backing().is_none());
}

#[test]
fn vm_object_fork_bomb_shadow_count_consistency() {
    let mut store = VmObjects::new();
    let backing = VmObject::new(&mut store, 4096);
    put(&mut store, backing, 0, 0xBA5E);

    let mut shadows: Vec<usize> = Vec::new();
    for _ in 0..100 {
        shadows.push(shadow_of(&mut store, backing, 4096));
    }
    assert_eq!(store.get(backing).shadow_count(), 100);
    for s in &shadows {
        assert_eq!(look(&store, *s, 0).unwrap(), PhysAddr::new(0xBA5E));
    }

    // All but one exit.
    let survivor = shadows.pop().unwrap();
    for s in shadows {
        store.release(s);
    }
    assert_eq!(store.get(backing).shadow_count(), 1);

    collapse(&mut store, survivor);
    assert_eq!(look(&store, survivor, 0).unwrap(), PhysAddr::new(0xBA5E));
    assert_eq!(store.get(survivor).resident_count(), 1);
    assert!(store.get(survivor).backing().is_none());
    assert_eq!(store.get(backing).resident_count(), 0);
}

#[test]
fn vm_object_fork_bomb_deep_chain_200() {
    let mut store = VmObjects::new();
    let root = VmObject::new(&mut store, 4096);
    put(&mut store, root, 0, 0x2007);

    let mut all: Vec<usize> = vec![root];
    for _ in 0..200 {
        let parent = *all.last().unwrap();
        all.push(shadow_of(&mut store, parent, 4096));
    }
    let deepest = *all.last().unwrap();
    assert_eq!(look(&store, deepest, 0).unwrap(), PhysAddr::new(0x2007));
    assert_eq!(VmObject::shadow_depth(&store, deepest), 200);

    // All but the first and the last give up their handles.
    let deepest = all.pop().unwrap();
    let root_ref = all.remove(0);
    for id in all {
        store.release(id);
    }
    assert_eq!(look(&store, deepest, 0).unwrap(), PhysAddr::new(0x2007));

    store.release(deepest);
    assert_eq!(store.get(root_ref).shadow_count(), 0);
}

#[test]
fn vm_object_fork_bomb_wide_fan_with_cow_pages() {
    let mut store = VmObjects::new();
    let backing = VmObject::new(&mut store, 4096 * 4);
    for i in 0..4u64 {
        put(&mut store, backing, i, (0xA000 + i) * 0x1000);
    }

    let mut shadows: Vec<usize> = Vec::new();
    for i in 0..100u64 {
        let s = shadow_of(&mut store, backing, 4096 * 4);
        put(&mut store, s, i % 4, 0xC000_0000 + i * 0x1000);
        shadows.push(s);
    }
    assert_eq!(store.get(backing).shadow_count(), 100);
    for (i, s) in shadows.iter().enumerate() {
        let i = i as u64;
        assert_eq!(look(&store, *s, i % 4).unwrap(), PhysAddr::new(0xC000_0000 + i * 0x1000));
    }

    let survivor = shadows.pop().unwrap();
    for s in shadows {
        store.release(s);
    }
    assert_eq!(store.get(backing).shadow_count(), 1);

    collapse(&mut store, survivor);
    assert_eq!(store.get(survivor).resident_count(), 4);
    assert!(store.get(survivor).backing().is_none());
}
