//! The address space of a program.
use vstd::prelude::*;
use crate::hal::addr::{VirtAddr, PAGE_SIZE};
use crate::hal::errno::Errno;
use crate::mm::vm::map::address_map::{
    insertable, lemma_raised_twice, mapped, new_entry, place_of, raised, Entries, VmMap,
};
use crate::mm::vm::map::entry::{offset_of, VmMapEntry, VmMapping};
use crate::mm::vm::map::perm::MapPerm;
use crate::mm::vm::map::splay::{found, lemma_rank, rank};
use crate::mm::vm::object::{VmObject, VmObjects};
use crate::mm::vm::page_ref::PageRef;
use crate::mm::vm::shadow::{live, PagerRef};
use crate::proc::exec::region::FileRegion;

verus! {

/// The entry for a range backed by the object at `id`.
pub open spec fn file_entry(r: FileRegion, id: int) -> VmMapEntry {
    new_entry(
        VirtAddr(r.lo),
        VirtAddr(r.hi),
        r.prot,
        VmMapping::FilePrivate { object: id as usize, offset: r.file_offset },
    )
}

/// Whether an entry is exactly there, with the same offset: the range is then joined with
/// it.
pub open spec fn joins(es: Entries, r: FileRegion) -> bool {
    let e = es[place_of(es, r.lo as int)];
    mapped(es, r.lo as int) && e.lo == r.lo && e.hi == r.hi && offset_of(e.mapping) == r.file_offset
}

/// The entries with one more range, and whether it needed an object; nothing where other
/// entries are in the way.
pub open spec fn with_region(es: Entries, r: FileRegion, id: int) -> Option<(Entries, int)> {
    if joins(es, r) {
        let i = place_of(es, r.lo as int);
        Some(
            (
                es.update(
                    i,
                    VmMapEntry { protection: MapPerm(es[i].protection.0 | r.prot.0), ..es[i] },
                ),
                0,
            ),
        )
    } else if insertable(es, file_entry(r, id)) {
        Some((es.insert(rank(es, r.lo as int), file_entry(r, id)), 1))
    } else {
        None
    }
}

/// The entries with the first `n` ranges, and how many objects that took, the first of them
/// at `base`.
pub open spec fn with_regions(es: Entries, rs: Seq<FileRegion>, n: int, base: int) -> Option<
    (Entries, int),
>
    decreases n,
{
    if n <= 0 {
        Some((es, 0))
    } else {
        match with_regions(es, rs, n - 1, base) {
            None => None,
            Some((now, k)) => match with_region(now, rs[n - 1], base + k) {
                None => None,
                Some((next, more)) => Some((next, k + more)),
            },
        }
    }
}

/// The object at `id` is for the range of the file.
pub open spec fn is_file_object(
    store: &VmObjects,
    id: int,
    r: FileRegion,
    vnode_id: u64,
    path: Seq<char>,
) -> bool {
    let o = store.obj(id);
    &&& store.has(id)
    &&& o.pages@ == Map::<u64, PageRef>::empty()
    &&& o.backing is None
    &&& o.shadow_count == 0
    &&& o.size == (r.hi - r.lo) / 4096 * 4096
    &&& o.resident_count == 0
    &&& o.generation == 0
    &&& o.clean_generation == 0
    &&& o.refs == 1
    &&& o.pager matches Some(PagerRef::Vnode(p)) && {
        &&& p < store.pagers@.len()
        &&& store.pagers@[p as int].vnode_id == vnode_id
        &&& store.pagers@[p as int].path@ == path
        &&& store.pagers@[p as int].base_offset == r.file_offset
        &&& store.pagers@[p as int].valid_bytes == r.valid
    }
}

/// Objects and pagers that were there are as they were, and each of the first `n` ranges
/// that needed an object has one.
pub open spec fn file_objects(
    before: &VmObjects,
    after: &VmObjects,
    es: Entries,
    rs: Seq<FileRegion>,
    n: int,
    vnode_id: u64,
    path: Seq<char>,
) -> bool {
    let base = before.objects@.len() as int;
    &&& after.objects@.len() >= base
    &&& after.objects@.take(base) == before.objects@
    &&& after.pagers@.len() >= before.pagers@.len()
    &&& after.pagers@.take(before.pagers@.len() as int) == before.pagers@
    &&& from_file(after, es, rs, n, base, vnode_id, path)
}

/// Each of the first `n` ranges that needed an object, the first of them at `base`, has one
/// that is for its part of the file.
pub open spec fn from_file(
    store: &VmObjects,
    es: Entries,
    rs: Seq<FileRegion>,
    n: int,
    base: int,
    vnode_id: u64,
    path: Seq<char>,
) -> bool {
    forall|j: int|
        0 <= j < n ==> (#[trigger] object_for(es, rs, j, base) matches Some(id) ==> is_file_object(
            store,
            id,
            rs[j],
            vnode_id,
            path,
        ))
}

/// The first range that is in the way of another is the one at `m`.
pub open spec fn stops_at(es: Entries, rs: Seq<FileRegion>, m: int, base: int) -> bool {
    &&& 0 <= m < rs.len()
    &&& with_regions(es, rs, m, base) is Some
    &&& with_regions(es, rs, m + 1, base) is None
}

/// The ranges before the first that is in the way of another were mapped, and no others.
pub open spec fn regions_stuck(
    es: Entries,
    now: Entries,
    before: &VmObjects,
    after: &VmObjects,
    rs: Seq<FileRegion>,
    vnode_id: u64,
    path: Seq<char>,
) -> bool {
    let base = before.objects@.len() as int;
    exists|m: int| #[trigger]
        stops_at(es, rs, m, base) && with_regions(es, rs, m, base) == Some(
            (now, after.objects@.len() - base),
        ) && file_objects(before, after, es, rs, m, vnode_id, path)
}

/// Objects and pagers that were there are as they were.
pub open spec fn store_grew(before: &VmObjects, after: &VmObjects) -> bool {
    &&& after.objects@.len() >= before.objects@.len()
    &&& after.objects@.take(before.objects@.len() as int) == before.objects@
    &&& after.pagers@.len() >= before.pagers@.len()
    &&& after.pagers@.take(before.pagers@.len() as int) == before.pagers@
}

/// The objects of ranges stay while others are made.
pub proof fn lemma_from_file_kept(
    before: &VmObjects,
    after: &VmObjects,
    es: Entries,
    rs: Seq<FileRegion>,
    n: int,
    base: int,
    vnode_id: u64,
    path: Seq<char>,
)
    requires
        from_file(before, es, rs, n, base, vnode_id, path),
        store_grew(before, after),
    ensures
        from_file(after, es, rs, n, base, vnode_id, path),
{
    assert forall|j: int| 0 <= j < n implies (#[trigger] object_for(es, rs, j, base) matches Some(
        id,
    ) ==> is_file_object(after, id, rs[j], vnode_id, path)) by {
        if let Some(id) = object_for(es, rs, j, base) {
            assert(is_file_object(before, id, rs[j], vnode_id, path));
            let p = (before.obj(id).pager->0)->Vnode_0 as int;
            assert(live(before.objects@, id));
            assert(after.objects@[id] == after.objects@.take(before.objects@.len() as int)[id]);
            assert(live(after.objects@, id));
            assert(after.pagers@[p] == after.pagers@.take(before.pagers@.len() as int)[p]);
        }
    }
}

/// Growing twice.
pub proof fn lemma_grew_twice(a: &VmObjects, b: &VmObjects, c: &VmObjects)
    requires
        store_grew(a, b),
        store_grew(b, c),
    ensures
        store_grew(a, c),
{
    let n = a.objects@.len() as int;
    let m = a.pagers@.len() as int;
    assert(c.objects@.take(n) =~= c.objects@.take(b.objects@.len() as int).take(n));
    assert(c.pagers@.take(m) =~= c.pagers@.take(b.pagers@.len() as int).take(m));
}

/// The object that range `j` needed, where it was not joined with an entry.
#[verifier::opaque]
pub open spec fn object_for(es: Entries, rs: Seq<FileRegion>, j: int, base: int) -> Option<int> {
    match with_regions(es, rs, j, base) {
        Some((now, k)) => if joins(now, rs[j]) {
            None
        } else {
            Some(base + k)
        },
        None => None,
    }
}

/// The range can be mapped.
pub open spec fn region_ok(r: FileRegion) -> bool {
    r.lo < r.hi ==> r.hi + 4095 <= u64::MAX
}

/// Map one range of a file.
fn map_region(
    vm: &mut VmMap,
    store: &mut VmObjects,
    vnode_id: u64,
    path: &String,
    r: &FileRegion,
) -> (done: Result<bool, Errno>)
    requires
        old(vm).wf(),
        old(store).wf(),
        old(vm).nentries < usize::MAX,
        region_ok(*r),
    ensures
        final(vm).wf(),
        final(store).wf(),
        final(vm).pmap == old(vm).pmap,
        final(store).objects@.len() >= old(store).objects@.len(),
        final(vm).timestamp == raised(
            old(vm).timestamp,
            final(store).objects@.len() - old(store).objects@.len(),
        ),
        final(vm).nentries <= old(vm).nentries + 1,
        match with_region(old(vm).entries(), *r, old(store).objects@.len() as int) {
            None => {
                &&& done == Err::<bool, Errno>(Errno::Enoexec)
                &&& final(vm).entries() == old(vm).entries()
                &&& *final(store) == *old(store)
            },
            Some((now, more)) => {
                &&& done == Ok::<bool, Errno>(more == 1)
                &&& final(vm).entries() == now
                &&& more == 0 ==> *final(store) == *old(store)
                &&& more == 1 ==> {
                    let id = old(store).objects@.len() as int;
                    &&& final(store).objects@ == old(store).objects@.push(final(store).objects@[id])
                    &&& final(store).pagers@.len() == old(store).pagers@.len() + 1
                    &&& final(store).pagers@.take(old(store).pagers@.len() as int) == old(store).pagers@
                    &&& is_file_object(final(store), id, *r, vnode_id, path@)
                }
            },
        },
{
    let ghost es = vm.entries();
    proof {
        reveal_with_fuel(raised, 2);
    }
    let start = VirtAddr::new(r.lo);
    let end = VirtAddr::new(r.hi);
    if let Some(e) = vm.lookup_readonly(start) {
        if e.lo == r.lo && e.hi == r.hi && e.mapping.offset() == r.file_offset {
            let mut now = e;
            now.protection = e.protection | r.prot;
            proof {
                vm.lemma_same_bounds(r.lo as int);
            }
            vm.set_entry(start, now);
            return Ok(false);
        }
    }
    if r.lo >= r.hi || r.lo % PAGE_SIZE != 0 || r.hi % PAGE_SIZE != 0 || !vm.is_range_free(
        start,
        end,
    ) {
        return Err(Errno::Enoexec);
    }
    let ghost id = store.objects@.len() as int;
    let object = VmObject::new_vnode_region(
        store,
        vnode_id,
        path.clone(),
        (r.hi - r.lo) / PAGE_SIZE,
        r.file_offset,
        r.valid,
    );
    proof {
        assert(store.pagers@.take(old(store).pagers@.len() as int) =~= old(store).pagers@);
        assert(!joins(es, *r));
        assert(is_file_object(store, id, *r, vnode_id, path@));
    }
    let mapping = VmMapping::FilePrivate { object, offset: r.file_offset };
    proof {
        lemma_rank(es, r.lo as int);
        assert(insertable(es, file_entry(*r, id)));
    }
    let _ = vm.map(start, end, r.prot, mapping);
    Ok(true)
}

/// Map ranges of a file, one after the other.  The error is that ranges are in each other's
/// way; what was mapped before stays.
pub fn map_regions(
    vm: &mut VmMap,
    store: &mut VmObjects,
    vnode_id: u64,
    path: &String,
    rs: &Vec<FileRegion>,
) -> (done: Result<(), Errno>)
    requires
        old(vm).wf(),
        old(store).wf(),
        old(vm).nentries + rs@.len() <= usize::MAX,
        forall|i: int| 0 <= i < rs@.len() ==> region_ok(#[trigger] rs@[i]),
    ensures
        final(vm).wf(),
        final(store).wf(),
        final(vm).pmap == old(vm).pmap,
        final(store).objects@.len() >= old(store).objects@.len(),
        final(vm).timestamp == raised(
            old(vm).timestamp,
            final(store).objects@.len() - old(store).objects@.len(),
        ),
        final(vm).nentries <= old(vm).nentries + rs@.len(),
        ({
            let es = old(vm).entries();
            let n = rs@.len() as int;
            let base = old(store).objects@.len() as int;
            match with_regions(es, rs@, n, base) {
                None => {
                    &&& done == Err::<(), Errno>(Errno::Enoexec)
                    &&& regions_stuck(
                        es,
                        final(vm).entries(),
                        old(store),
                        final(store),
                        rs@,
                        vnode_id,
                        path@,
                    )
                },
                Some((now, k)) => {
                    &&& done == Ok::<(), Errno>(())
                    &&& final(vm).entries() == now
                    &&& final(store).objects@.len() == base + k
                    &&& file_objects(old(store), final(store), es, rs@, n, vnode_id, path@)
                },
            }
        }),
{
    let ghost es = vm.entries();
    let ghost base = store.objects@.len() as int;
    let mut i: usize = 0;
    let ghost mut made: int = 0;
    proof {
        assert(store.objects@.take(base) =~= store.objects@);
        assert(store.pagers@.take(store.pagers@.len() as int) =~= store.pagers@);
    }
    while i < rs.len()
        invariant
            i <= rs@.len(),
            vm.wf(),
            store.wf(),
            es == old(vm).entries(),
            base == old(store).objects@.len(),
            vm.pmap == old(vm).pmap,
            vm.timestamp == raised(old(vm).timestamp, made),
            vm.nentries <= old(vm).nentries + i,
            old(vm).nentries + rs@.len() <= usize::MAX,
            forall|j: int| 0 <= j < rs@.len() ==> region_ok(#[trigger] rs@[j]),
            made >= 0,
            with_regions(es, rs@, i as int, base) == Some((vm.entries(), made)),
            store.objects@.len() == base + made,
            file_objects(old(store), store, es, rs@, i as int, vnode_id, path@),
        decreases rs@.len() - i,
    {
        let ghost before = *store;
        let ghost now = vm.entries();
        let ghost ts = vm.timestamp;
        match map_region(vm, store, vnode_id, path, &rs[i]) {
            Err(e) => {
                proof {
                    assert(vm.timestamp == ts);
                    lemma_stuck(es, rs@, i + 1, rs@.len() as int, base);
                    assert(stops_at(es, rs@, i as int, base));
                }
                return Err(e);
            },
            Ok(new) => {
                proof {
                    let grew = if new {
                        1int
                    } else {
                        0
                    };
                    assert(object_for(es, rs@, i as int, base) == (if new {
                        Some(base + made)
                    } else {
                        None
                    })) by {
                        reveal(object_for);
                    }
                    lemma_objects_grow(
                        old(store),
                        &before,
                        store,
                        es,
                        rs@,
                        i as int,
                        vnode_id,
                        path@,
                        new,
                    );
                    lemma_raised_twice(old(vm).timestamp, made, grew);
                    made = made + grew;
                }
            },
        }
        i += 1;
    }
    Ok(())
}

/// Once ranges are in each other's way they stay so.
proof fn lemma_stuck(es: Entries, rs: Seq<FileRegion>, i: int, n: int, base: int)
    requires
        i <= n,
        with_regions(es, rs, i, base) is None,
    ensures
        with_regions(es, rs, n, base) is None,
    decreases n - i,
{
    if i < n {
        lemma_stuck(es, rs, i, n - 1, base);
    }
}

/// An object stays while one more is made.
proof fn lemma_object_kept(
    before: &VmObjects,
    after: &VmObjects,
    id: int,
    r: FileRegion,
    vnode_id: u64,
    path: Seq<char>,
)
    requires
        is_file_object(before, id, r, vnode_id, path),
        after.objects@.len() == before.objects@.len() + 1,
        after.objects@ == before.objects@.push(after.objects@.last()),
        after.pagers@.len() == before.pagers@.len() + 1,
        after.pagers@.take(before.pagers@.len() as int) == before.pagers@,
    ensures
        is_file_object(after, id, r, vnode_id, path),
{
    let p = (before.obj(id).pager->0)->Vnode_0 as int;
    assert(live(before.objects@, id));
    assert(after.objects@[id] == before.objects@[id]);
    assert(live(after.objects@, id));
    assert(after.pagers@[p] == after.pagers@.take(before.pagers@.len() as int)[p]);
}

/// Objects stay while more are made.
proof fn lemma_objects_grow(
    first: &VmObjects,
    before: &VmObjects,
    after: &VmObjects,
    es: Entries,
    rs: Seq<FileRegion>,
    n: int,
    vnode_id: u64,
    path: Seq<char>,
    grew: bool,
)
    requires
        0 <= n < rs.len(),
        file_objects(first, before, es, rs, n, vnode_id, path),
        !grew ==> *after == *before && object_for(
            es,
            rs,
            n,
            first.objects@.len() as int,
        ) is None,
        grew ==> {
            let id = before.objects@.len() as int;
            &&& object_for(es, rs, n, first.objects@.len() as int) == Some(id)
            &&& after.objects@.len() == before.objects@.len() + 1
            &&& after.objects@ == before.objects@.push(after.objects@.last())
            &&& after.pagers@.len() == before.pagers@.len() + 1
            &&& after.pagers@.take(before.pagers@.len() as int) == before.pagers@
            &&& is_file_object(after, id, rs[n], vnode_id, path)
        },
    ensures
        file_objects(first, after, es, rs, n + 1, vnode_id, path),
{
    let base = first.objects@.len() as int;
    if grew {
        assert(after.objects@.take(base) =~= before.objects@.take(base));
        assert forall|p: int| 0 <= p < before.pagers@.len() implies after.pagers@[p]
            == before.pagers@[p] by {
            assert(after.pagers@[p] == after.pagers@.take(before.pagers@.len() as int)[p]);
        }
        assert(after.pagers@.take(first.pagers@.len() as int) =~= before.pagers@.take(
            first.pagers@.len() as int,
        ));
        assert forall|j: int| 0 <= j < n + 1 implies (#[trigger] object_for(
            es,
            rs,
            j,
            base,
        ) matches Some(id) ==> is_file_object(after, id, rs[j], vnode_id, path)) by {
            if j < n {
                if let Some(id) = object_for(es, rs, j, base) {
                    lemma_object_kept(before, after, id, rs[j], vnode_id, path);
                }
            }
        }
    }
}

/// What joining protections keeps.
proof fn lemma_or_keeps(a: u8, b: u8, c: u8)
    ensures
        (a | b) & b == b,
        b & b == b,
        a & c == c ==> (a | b) & c == c,
{
    assert((a | b) & b == b && b & b == b && (a & c == c ==> (a | b) & c == c)) by (bit_vector);
}

/// One more range leaves what was served served, and is served itself.
proof fn lemma_served(es: Entries, r: FileRegion, id: int, q: FileRegion)
    requires
        with_region(es, r, id) is Some,
        q == r || exists|x: int| #[trigger] serves(es, x, q),
    ensures
        exists|x: int| #[trigger] serves((with_region(es, r, id)->0).0, x, q),
{
    let now = (with_region(es, r, id)->0).0;
    if joins(es, r) {
        let p = place_of(es, r.lo as int);
        assert(found(es, r.lo as int, p));
        lemma_or_keeps(es[p].protection.0, r.prot.0, q.prot.0);
        if q == r {
            assert(serves(now, p, r));
        } else {
            let x = choose|x: int| #[trigger] serves(es, x, q);
            assert(serves(now, x, q));
        }
    } else {
        let k = rank(es, r.lo as int);
        lemma_rank_in_range(es, r.lo as int);
        lemma_or_keeps(0, r.prot.0, q.prot.0);
        if q == r {
            assert(serves(now, k, r));
        } else {
            let x = choose|x: int| #[trigger] serves(es, x, q);
            if x < k {
                assert(serves(now, x, q));
            } else {
                assert(serves(now, x + 1, q));
            }
        }
    }
}

/// More ranges leave what was served served.
pub proof fn lemma_still_served(es: Entries, rs: Seq<FileRegion>, n: int, base: int, q: FileRegion)
    requires
        0 <= n <= rs.len(),
        with_regions(es, rs, n, base) is Some,
        exists|x: int| #[trigger] serves(es, x, q),
    ensures
        exists|x: int| #[trigger] serves((with_regions(es, rs, n, base)->0).0, x, q),
    decreases n,
{
    if n > 0 {
        lemma_still_served(es, rs, n - 1, base, q);
        let (prev, k) = with_regions(es, rs, n - 1, base)->0;
        lemma_served(prev, rs[n - 1], base + k, q);
        let now = (with_region(prev, rs[n - 1], base + k)->0).0;
        let x = choose|x: int| #[trigger] serves(now, x, q);
        assert(now == (with_regions(es, rs, n, base)->0).0);
        assert(serves((with_regions(es, rs, n, base)->0).0, x, q));
    }
}

/// Every range that was mapped has an entry exactly there, with the bytes of the file from its offset on
/// behind it and at least the access asked for.
pub proof fn law_ranges_are_mapped(es: Entries, rs: Seq<FileRegion>, n: int, base: int, j: int)
    requires
        0 <= j < n <= rs.len(),
        with_regions(es, rs, n, base) is Some,
    ensures
        exists|x: int| #[trigger] serves((with_regions(es, rs, n, base)->0).0, x, rs[j]),
    decreases n,
{
    let (prev, k) = with_regions(es, rs, n - 1, base)->0;
    if j < n - 1 {
        law_ranges_are_mapped(es, rs, n - 1, base, j);
    }
    lemma_served(prev, rs[n - 1], base + k, rs[j]);
    let now = (with_region(prev, rs[n - 1], base + k)->0).0;
    let x = choose|x: int| #[trigger] serves(now, x, rs[j]);
    assert(now == (with_regions(es, rs, n, base)->0).0);
    assert(serves((with_regions(es, rs, n, base)->0).0, x, rs[j]));
}

/// The entry at `x` lies exactly where the range does, with its offset and at least its access.
pub open spec fn serves(es: Entries, x: int, r: FileRegion) -> bool {
    &&& 0 <= x < es.len()
    &&& es[x].lo == r.lo
    &&& es[x].hi == r.hi
    &&& offset_of(es[x].mapping) == r.file_offset
    &&& es[x].protection.0 & r.prot.0 == r.prot.0
}

pub proof fn lemma_rank_in_range(s: Entries, addr: int)
    ensures
        0 <= rank(s, addr) <= s.len(),
    decreases s.len(),
{
    if s.len() > 0 {
        lemma_rank_in_range(s.drop_last(), addr);
    }
}

/// The object of a range has no page yet and gets them from the file: from the offset of the range on, and
/// only as many bytes as the range has of the file.
pub proof fn law_range_comes_from_its_file(
    store: &VmObjects,
    es: Entries,
    rs: Seq<FileRegion>,
    n: int,
    base: int,
    vnode_id: u64,
    path: Seq<char>,
    j: int,
)
    requires
        from_file(store, es, rs, n, base, vnode_id, path),
        0 <= j < n <= rs.len(),
        object_for(es, rs, j, base) is Some,
    ensures
        ({
            let o = store.objects@[object_for(es, rs, j, base)->0]->0;
            &&& store.objects@[object_for(es, rs, j, base)->0] is Some
            &&& forall|k: u64| !#[trigger] o.pages@.dom().contains(k)
            &&& o.backing is None
            &&& o.pager matches Some(PagerRef::Vnode(p)) && {
                let f = store.pagers@[p as int];
                &&& f.vnode_id == vnode_id
                &&& f.path@ == path
                &&& f.base_offset == rs[j].file_offset
                &&& f.valid_bytes == rs[j].valid
            }
        }),
{
    let id = object_for(es, rs, j, base)->0;
    assert(is_file_object(store, id, rs[j], vnode_id, path));
}

} // verus!
