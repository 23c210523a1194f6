//! Objects and their shadow chains.
//!
//! An object holds pages by index and may have a backing object, in which pages
//! that it does not hold are looked for.  Copy-on-write puts a new object, a
//! shadow, in front of an old one: what is written goes to the shadow.
//!
//! All objects live in a store and are known by their place in it.  A backing
//! object is always older than its shadows, so chains end.  Each object counts
//! the handles to it: those held outside and those of its shadows.
use vstd::prelude::*;
use crate::hal::addr::PhysAddr;
use crate::mm::vm::page_map::{as_map, lemma_at, listed, page_at, rising, sorted, PageMap};
use crate::mm::vm::page_ref::PhysPage;
use crate::mm::vm::pager::VnodePager;

verus! {

/// Which pager an object has.
#[derive(Debug, Clone, Copy, PartialEq, Eq, Structural)]
pub enum PagerRef {
    /// The anonymous pager.
    Anon,
    /// A file pager of the store, by its place.
    Vnode(usize),
}

/// A collection of pages, with an optional backing object.
#[derive(Debug)]
pub struct Object<P> {
    pub pages: PageMap<P>,
    pub pager: Option<PagerRef>,
    /// Next object of the chain.
    pub backing: Option<usize>,
    /// How many objects have this one as their backing.
    pub shadow_count: usize,
    /// Size in bytes.
    pub size: u64,
    /// Number of pages in this object.
    pub resident_count: usize,
    /// Raised at every change of a page.
    pub generation: u32,
    /// Value of `generation` when all pages were last written back.
    pub clean_generation: u32,
    /// Handles to this object.
    pub refs: usize,
}

/// All objects.
#[derive(Debug)]
pub struct ObjectStore<P> {
    pub objects: Vec<Option<Object<P>>>,
    pub pagers: Vec<VnodePager>,
}

pub type Objects<P> = Seq<Option<Object<P>>>;

/// Whether there is an object at `id`.
pub open spec fn live<P>(objs: Objects<P>, id: int) -> bool {
    0 <= id < objs.len() && objs[id] is Some
}

/// One where the object in the slot has `b` as its backing, else zero.
pub open spec fn points<P>(slot: Option<Object<P>>, b: int) -> int {
    match slot {
        Some(o) => match o.backing {
            Some(x) => if x == b {
                1int
            } else {
                0
            },
            None => 0,
        },
        None => 0,
    }
}

/// How many of the first `n` objects have `b` as their backing.
pub open spec fn shadows<P>(objs: Objects<P>, b: int, n: int) -> int
    decreases n,
{
    if n <= 0 {
        0
    } else {
        shadows(objs, b, n - 1) + points(objs[n - 1], b)
    }
}

/// What holds of the object at `id`.
pub open spec fn object_wf<P>(objs: Objects<P>, id: int) -> bool {
    let o = objs[id]->0;
    &&& o.pages.wf()
    &&& o.resident_count == o.pages.count()
    &&& o.backing matches Some(b) ==> b < id && live(objs, b as int)
    &&& o.shadow_count == shadows(objs, id, objs.len() as int)
    &&& o.shadow_count <= o.refs
    &&& 1 <= o.refs
}

/// Backing objects are older and alive, and the counts are right.
pub open spec fn store_wf<P>(objs: Objects<P>) -> bool {
    forall|id: int| #[trigger] live(objs, id) ==> object_wf(objs, id)
}

/// The page at index `k` seen through the object at `id`: its own, or else the
/// one that its backing object sees.
pub open spec fn lookup<P: PhysPage>(objs: Objects<P>, id: int, k: u64) -> Option<PhysAddr>
    decreases id,
{
    if !live(objs, id) {
        None
    } else {
        let o = objs[id]->0;
        if o.pages@.dom().contains(k) {
            Some(o.pages@[k].at())
        } else {
            match o.backing {
                Some(b) => if b < id {
                    lookup(objs, b as int, k)
                } else {
                    None
                },
                None => None,
            }
        }
    }
}

/// Number of objects behind the one at `id`.
pub open spec fn depth<P>(objs: Objects<P>, id: int) -> int
    decreases id,
{
    if !live(objs, id) {
        0
    } else {
        match (objs[id]->0).backing {
            Some(b) => if b < id {
                1 + depth(objs, b as int)
            } else {
                0
            },
            None => 0,
        }
    }
}

/// The pages after the object with `own` has taken over those of `behind` that
/// are not `pinned`; its own pages win.
pub open spec fn merged<P>(own: Map<u64, P>, behind: Map<u64, P>, pinned: Seq<u64>) -> Map<u64, P> {
    Map::new(
        |k: u64| own.dom().contains(k) || behind.dom().contains(k) && !pinned.contains(k),
        |k: u64|
            if own.dom().contains(k) {
                own[k]
            } else {
                behind[k]
            },
    )
}

/// The pinned pages.
pub open spec fn kept_behind<P>(behind: Map<u64, P>, pinned: Seq<u64>) -> Map<u64, P> {
    Map::new(|k: u64| behind.dom().contains(k) && pinned.contains(k), |k: u64| behind[k])
}

/// Pages of `behind` that nobody can see any more: hidden by a page of `own`, and
/// not `pinned`.
pub open spec fn hidden<P>(
    own: Map<u64, P>,
    behind: Seq<(u64, P)>,
    pinned: Seq<u64>,
) -> Seq<P>
    decreases behind.len(),
{
    if behind.len() == 0 {
        Seq::empty()
    } else {
        let e = behind.last();
        let before = hidden(own, behind.drop_last(), pinned);
        if !pinned.contains(e.0) && own.dom().contains(e.0) {
            before.push(e.1)
        } else {
            before
        }
    }
}

/// The pages of a sequence of entries.
pub open spec fn pages_of<P>(s: Seq<(u64, P)>) -> Seq<P> {
    Seq::new(s.len(), |i: int| s[i].1)
}

/// The store after one handle to the object at `id` was dropped: the last handle
/// frees the object, which in turn drops its handle to its backing object.
pub open spec fn released<P>(objs: Objects<P>, id: int) -> Objects<P>
    decreases id,
{
    if !live(objs, id) {
        objs
    } else {
        let o = objs[id]->0;
        if o.refs > 1 {
            objs.update(id, Some(Object { refs: (o.refs - 1) as usize, ..o }))
        } else {
            match o.backing {
                Some(b) => if 0 <= b < id && live(objs, b as int) {
                    let p = objs[b as int]->0;
                    released(
                        objs.update(id, None).update(
                            b as int,
                            Some(Object { shadow_count: (p.shadow_count - 1) as usize, ..p }),
                        ),
                        b as int,
                    )
                } else {
                    objs.update(id, None)
                },
                None => objs.update(id, None),
            }
        }
    }
}

/// The pages of the objects that are freed then.
pub open spec fn freed_pages<P>(objs: Objects<P>, id: int) -> Seq<P>
    decreases id,
{
    if !live(objs, id) {
        Seq::empty()
    } else {
        let o = objs[id]->0;
        if o.refs > 1 {
            Seq::empty()
        } else {
            pages_of(o.pages.entries()) + match o.backing {
                Some(b) => if 0 <= b < id && live(objs, b as int) {
                    let p = objs[b as int]->0;
                    freed_pages(
                        objs.update(id, None).update(
                            b as int,
                            Some(Object { shadow_count: (p.shadow_count - 1) as usize, ..p }),
                        ),
                        b as int,
                    )
                } else {
                    Seq::empty()
                },
                None => Seq::empty(),
            }
        }
    }
}

proof fn lemma_shadows_update<P>(objs: Objects<P>, i: int, x: Option<Object<P>>, b: int, n: int)
    requires
        0 <= i < objs.len(),
        n <= objs.len(),
    ensures
        shadows(objs.update(i, x), b, n) == shadows(objs, b, n) + if i < n {
            points(x, b) - points(objs[i], b)
        } else {
            0
        },
    decreases n,
{
    if n > 0 {
        lemma_shadows_update(objs, i, x, b, n - 1);
    }
}

proof fn lemma_shadows_push<P>(objs: Objects<P>, x: Option<Object<P>>, b: int, n: int)
    requires
        n <= objs.len(),
    ensures
        shadows(objs.push(x), b, n) == shadows(objs, b, n),
    decreases n,
{
    if n > 0 {
        lemma_shadows_push(objs, x, b, n - 1);
    }
}

proof fn lemma_shadows_nonneg<P>(objs: Objects<P>, b: int, n: int)
    ensures
        0 <= shadows(objs, b, n),
        n >= 0 ==> shadows(objs, b, n) <= n,
    decreases n,
{
    if n > 0 {
        lemma_shadows_nonneg(objs, b, n - 1);
    }
}

/// One object that points to `b` counts.
proof fn lemma_shadows_at_least<P>(objs: Objects<P>, b: int, i: int, n: int)
    requires
        0 <= i < n <= objs.len(),
    ensures
        shadows(objs, b, n) >= points(objs[i], b),
    decreases n,
{
    if i < n - 1 {
        lemma_shadows_at_least(objs, b, i, n - 1);
    } else {
        lemma_shadows_nonneg(objs, b, n - 1);
    }
}

/// Two different objects that point to `b` count twice.
proof fn lemma_shadows_two<P>(objs: Objects<P>, b: int, i: int, j: int, n: int)
    requires
        0 <= i < j < n <= objs.len(),
    ensures
        shadows(objs, b, n) >= points(objs[i], b) + points(objs[j], b),
    decreases n,
{
    if j < n - 1 {
        lemma_shadows_two(objs, b, i, j, n - 1);
    } else {
        lemma_shadows_at_least(objs, b, i, n - 1);
    }
}

/// Nothing points to a place where there is no object yet.
proof fn lemma_shadows_none<P>(objs: Objects<P>, b: int, n: int)
    requires
        store_wf(objs),
        n <= objs.len(),
        !live(objs, b),
    ensures
        shadows(objs, b, n) == 0,
    decreases n,
{
    if n > 0 {
        lemma_shadows_none(objs, b, n - 1);
        if live(objs, n - 1) {
            assert(object_wf(objs, n - 1));
        }
    }
}

impl<P> ObjectStore<P> {
    pub open spec fn wf(&self) -> bool {
        &&& store_wf(self.objects@)
        &&& forall|id: int| #[trigger]
            live(self.objects@, id) ==> (self.obj(id).pager matches Some(PagerRef::Vnode(i)) ==> i
                < self.pagers@.len())
    }

    /// The object at `id`.
    pub open spec fn obj(&self, id: int) -> Object<P> {
        self.objects@[id]->0
    }

    /// Whether there is an object at `id`.
    pub open spec fn has(&self, id: int) -> bool {
        live(self.objects@, id)
    }

    pub fn new() -> (r: Self)
        ensures
            r.wf(),
            r.objects@.len() == 0,
            r.pagers@.len() == 0,
    {
        ObjectStore { objects: Vec::new(), pagers: Vec::new() }
    }

    /// Add an object without pages.  The one handle to it is the caller's.
    pub fn create(&mut self, size: u64, pager: Option<PagerRef>) -> (r: usize)
        requires
            old(self).wf(),
            pager matches Some(PagerRef::Vnode(i)) ==> i < old(self).pagers@.len(),
        ensures
            final(self).wf(),
            r == old(self).objects@.len(),
            final(self).pagers == old(self).pagers,
            final(self).has(r as int),
            final(self).objects@.len() == old(self).objects@.len() + 1,
            final(self).objects@ == old(self).objects@.push(final(self).objects@[r as int]),
            ({
                let o = final(self).obj(r as int);
                &&& o.pages@ == Map::<u64, P>::empty()
                &&& o.pages.count() == 0
                &&& o.pager == pager
                &&& o.backing is None
                &&& o.shadow_count == 0
                &&& o.size == size
                &&& o.resident_count == 0
                &&& o.generation == 0
                &&& o.clean_generation == 0
                &&& o.refs == 1
            }),
    {
        let ghost before = self.objects@;
        let id = self.objects.len();
        let o = Object {
            pages: PageMap::new(),
            pager,
            backing: None,
            shadow_count: 0,
            size,
            resident_count: 0,
            generation: 0,
            clean_generation: 0,
            refs: 1,
        };
        self.objects.push(Some(o));
        proof {
            let objs = self.objects@;
            let n = before.len() as int;
            assert forall|x: int| #[trigger] live(objs, x) implies object_wf(objs, x) by {
                lemma_shadows_push(before, Some(o), x, n);
                if x < n {
                    assert(live(before, x));
                    assert(object_wf(before, x));
                } else {
                    lemma_shadows_none(before, n, n);
                }
            }
            assert forall|x: int| #[trigger] live(objs, x) implies (self.obj(x).pager matches Some(
                PagerRef::Vnode(i),
            ) ==> i < self.pagers@.len()) by {
                if x < n {
                    assert(live(before, x));
                }
            }
        }
        id
    }

    /// Put a shadow in front of `parent`.  The caller's handle to `parent` becomes
    /// the shadow's.
    pub fn shadow_of(&mut self, parent: usize, size: u64, pager: Option<PagerRef>) -> (r: usize)
        requires
            old(self).wf(),
            old(self).has(parent as int),
            old(self).obj(parent as int).shadow_count < old(self).obj(parent as int).refs,
            pager matches Some(PagerRef::Vnode(i)) ==> i < old(self).pagers@.len(),
        ensures
            final(self).wf(),
            r == old(self).objects@.len(),
            final(self).pagers == old(self).pagers,
            final(self).has(r as int),
            final(self).objects@.len() == old(self).objects@.len() + 1,
            final(self).objects@ == old(self).objects@.update(
                parent as int,
                Some(
                    Object {
                        shadow_count: (old(self).obj(parent as int).shadow_count + 1) as usize,
                        ..old(self).obj(parent as int)
                    },
                ),
            ).push(final(self).objects@[r as int]),
            ({
                let o = final(self).obj(r as int);
                &&& o.pages@ == Map::<u64, P>::empty()
                &&& o.pages.count() == 0
                &&& o.pager == pager
                &&& o.backing == Some(parent)
                &&& o.shadow_count == 0
                &&& o.size == size
                &&& o.resident_count == 0
                &&& o.generation == 0
                &&& o.clean_generation == 0
                &&& o.refs == 1
            }),
    {
        let ghost before = self.objects@;
        let ghost p0 = before[parent as int]->0;
        let id = self.objects.len();
        assert(object_wf(before, parent as int));
        let mut slot: Option<Object<P>> = None;
        core::mem::swap(&mut slot, &mut self.objects[parent]);
        if let Some(mut p) = slot {
            p.shadow_count = p.shadow_count + 1;
            self.objects[parent] = Some(p);
        }
        let ghost mid = self.objects@;
        let ghost p1 = Some(Object { shadow_count: (p0.shadow_count + 1) as usize, ..p0 });
        assert(mid =~= before.update(parent as int, p1));
        let o = Object {
            pages: PageMap::new(),
            pager,
            backing: Some(parent),
            shadow_count: 0,
            size,
            resident_count: 0,
            generation: 0,
            clean_generation: 0,
            refs: 1,
        };
        self.objects.push(Some(o));
        proof {
            let objs = self.objects@;
            let n = before.len() as int;
            assert forall|x: int| #[trigger] live(objs, x) implies object_wf(objs, x) by {
                lemma_shadows_push(mid, Some(o), x, n);
                lemma_shadows_update(before, parent as int, p1, x, n);
                if x < n {
                    assert(live(before, x));
                    assert(object_wf(before, x));
                } else {
                    lemma_shadows_none(before, n, n);
                }
            }
            assert forall|x: int| #[trigger] live(objs, x) implies (self.obj(x).pager matches Some(
                PagerRef::Vnode(i),
            ) ==> i < self.pagers@.len()) by {
                if x < n {
                    assert(live(before, x));
                }
            }
        }
        id
    }

    /// Take another handle to the object at `id`.
    pub fn retain(&mut self, id: usize)
        requires
            old(self).wf(),
            old(self).has(id as int),
            old(self).obj(id as int).refs < usize::MAX,
        ensures
            final(self).wf(),
            final(self).pagers == old(self).pagers,
            final(self).objects@ == old(self).objects@.update(
                id as int,
                Some(
                    Object {
                        refs: (old(self).obj(id as int).refs + 1) as usize,
                        ..old(self).obj(id as int)
                    },
                ),
            ),
    {
        let ghost before = self.objects@;
        let mut slot: Option<Object<P>> = None;
        core::mem::swap(&mut slot, &mut self.objects[id]);
        if let Some(mut o) = slot {
            o.refs = o.refs + 1;
            self.objects[id] = Some(o);
        }
        proof {
            assert(self.objects@ =~= before.update(id as int, self.objects@[id as int]));
            lemma_kept(before, self.objects@, id as int);
            assert forall|x: int| #[trigger]
                live(self.objects@, x) implies (self.obj(x).pager matches Some(PagerRef::Vnode(i))
                ==> i < self.pagers@.len()) by {
                assert(live(before, x));
            }
        }
    }

    /// The object at `id`.
    pub fn get(&self, id: usize) -> (r: &Object<P>)
        requires
            self.has(id as int),
        ensures
            *r == self.obj(id as int),
    {
        self.objects[id].as_ref().unwrap()
    }

    /// Put a page into the object at `id`; the page that was there is returned.
    pub fn insert_page(&mut self, id: usize, k: u64, page: P) -> (r: Option<P>)
        requires
            old(self).wf(),
            old(self).has(id as int),
        ensures
            final(self).wf(),
            final(self).pagers == old(self).pagers,
            r == if old(self).obj(id as int).pages@.dom().contains(k) {
                Some(old(self).obj(id as int).pages@[k])
            } else {
                None
            },
            ({
                let o = old(self).obj(id as int);
                let n = final(self).obj(id as int);
                &&& final(self).objects@ == old(self).objects@.update(
                    id as int,
                    final(self).objects@[id as int],
                )
                &&& final(self).has(id as int)
                &&& n.pages@ == o.pages@.insert(k, page)
                &&& n == (Object { pages: n.pages, resident_count: n.resident_count, ..o })
            }),
    {
        let ghost before = self.objects@;
        let mut slot: Option<Object<P>> = None;
        core::mem::swap(&mut slot, &mut self.objects[id]);
        let mut r: Option<P> = None;
        assert(object_wf(before, id as int));
        if let Some(mut o) = slot {
            r = o.pages.insert(k, page);
            o.resident_count = o.pages.len();
            self.objects[id] = Some(o);
        }
        proof {
            assert(self.objects@ =~= before.update(id as int, self.objects@[id as int]));
            lemma_kept(before, self.objects@, id as int);
            assert forall|x: int| #[trigger]
                live(self.objects@, x) implies (self.obj(x).pager matches Some(PagerRef::Vnode(i))
                ==> i < self.pagers@.len()) by {
                assert(live(before, x));
            }
        }
        r
    }

    /// Take a page out of the object at `id`.
    pub fn remove_page(&mut self, id: usize, k: u64) -> (r: Option<P>)
        requires
            old(self).wf(),
            old(self).has(id as int),
        ensures
            final(self).wf(),
            final(self).pagers == old(self).pagers,
            r == if old(self).obj(id as int).pages@.dom().contains(k) {
                Some(old(self).obj(id as int).pages@[k])
            } else {
                None
            },
            ({
                let o = old(self).obj(id as int);
                let n = final(self).obj(id as int);
                &&& final(self).objects@ == old(self).objects@.update(
                    id as int,
                    final(self).objects@[id as int],
                )
                &&& final(self).has(id as int)
                &&& n.pages@ == o.pages@.remove(k)
                &&& n == (Object { pages: n.pages, resident_count: n.resident_count, ..o })
            }),
    {
        let ghost before = self.objects@;
        let mut slot: Option<Object<P>> = None;
        core::mem::swap(&mut slot, &mut self.objects[id]);
        let mut r: Option<P> = None;
        assert(object_wf(before, id as int));
        if let Some(mut o) = slot {
            r = o.pages.remove(k);
            o.resident_count = o.pages.len();
            self.objects[id] = Some(o);
        }
        proof {
            assert(self.objects@ =~= before.update(id as int, self.objects@[id as int]));
            lemma_kept(before, self.objects@, id as int);
            assert forall|x: int| #[trigger]
                live(self.objects@, x) implies (self.obj(x).pager matches Some(PagerRef::Vnode(i))
                ==> i < self.pagers@.len()) by {
                assert(live(before, x));
            }
        }
        r
    }

    /// Take every page from index `from` on out of the object at `id`.
    pub fn truncate_pages(&mut self, id: usize, from: u64) -> (r: Vec<(u64, P)>)
        requires
            old(self).wf(),
            old(self).has(id as int),
        ensures
            final(self).wf(),
            final(self).pagers == old(self).pagers,
            ({
                let o = old(self).obj(id as int);
                let n = final(self).obj(id as int);
                &&& final(self).objects@ == old(self).objects@.update(
                    id as int,
                    final(self).objects@[id as int],
                )
                &&& final(self).has(id as int)
                &&& n.pages@ == o.pages@.restrict(
                    Set::new(|k: u64| o.pages@.dom().contains(k) && k < from),
                )
                &&& n == (Object { pages: n.pages, resident_count: n.resident_count, ..o })
                &&& rising(r@)
                &&& as_map(r@) == o.pages@.restrict(
                    Set::new(|k: u64| o.pages@.dom().contains(k) && k >= from),
                )
                &&& n.resident_count + r@.len() == o.resident_count
            }),
    {
        let ghost before = self.objects@;
        let mut slot: Option<Object<P>> = None;
        core::mem::swap(&mut slot, &mut self.objects[id]);
        let mut r: Vec<(u64, P)> = Vec::new();
        assert(object_wf(before, id as int));
        if let Some(mut o) = slot {
            r = o.pages.split_from(from);
            o.resident_count = o.pages.len();
            self.objects[id] = Some(o);
        }
        proof {
            assert(self.objects@ =~= before.update(id as int, self.objects@[id as int]));
            lemma_kept(before, self.objects@, id as int);
            assert forall|x: int| #[trigger]
                live(self.objects@, x) implies (self.obj(x).pager matches Some(PagerRef::Vnode(i))
                ==> i < self.pagers@.len()) by {
                assert(live(before, x));
            }
        }
        r
    }

    /// Change the size, the pager and the generations of the object at `id`.
    pub fn set_attrs(
        &mut self,
        id: usize,
        size: u64,
        pager: Option<PagerRef>,
        generation: u32,
        clean_generation: u32,
    )
        requires
            old(self).wf(),
            old(self).has(id as int),
            pager matches Some(PagerRef::Vnode(i)) ==> i < old(self).pagers@.len(),
        ensures
            final(self).wf(),
            final(self).pagers == old(self).pagers,
            final(self).objects@ == old(self).objects@.update(
                id as int,
                Some(
                    Object {
                        size,
                        pager,
                        generation,
                        clean_generation,
                        ..old(self).obj(id as int)
                    },
                ),
            ),
    {
        let ghost before = self.objects@;
        let mut slot: Option<Object<P>> = None;
        core::mem::swap(&mut slot, &mut self.objects[id]);
        if let Some(mut o) = slot {
            o.size = size;
            o.pager = pager;
            o.generation = generation;
            o.clean_generation = clean_generation;
            self.objects[id] = Some(o);
        }
        proof {
            assert(self.objects@ =~= before.update(id as int, self.objects@[id as int]));
            lemma_kept(before, self.objects@, id as int);
            assert forall|x: int| #[trigger]
                live(self.objects@, x) implies (self.obj(x).pager matches Some(PagerRef::Vnode(i))
                ==> i < self.pagers@.len()) by {
                assert(live(before, x));
            }
        }
    }

    /// Number of objects behind the one at `id`.
    pub fn shadow_depth(&self, id: usize) -> (r: usize)
        requires
            self.wf(),
            self.has(id as int),
        ensures
            r == depth(self.objects@, id as int),
    {
        let mut n: usize = 0;
        let mut cur = id;
        loop
            invariant
                self.wf(),
                self.has(cur as int),
                n + cur <= id,
                n + depth(self.objects@, cur as int) == depth(self.objects@, id as int),
            decreases cur,
        {
            assert(object_wf(self.objects@, cur as int));
            match self.get(cur).backing {
                Some(b) => {
                    cur = b;
                    n = n + 1;
                },
                None => {
                    return n;
                },
            }
        }
    }

    /// Merge the backing object of the one at `id` into it, where nothing else
    /// shadows it.  Pages hidden by its own are given up; the others move over,
    /// but for the `pinned` ones, which stay behind.  The chain then skips the
    /// backing object.  Returns the pages given up.
    #[verifier::rlimit(60)]
    pub fn collapse(&mut self, id: usize, pinned: &Vec<u64>) -> (freed: Vec<P>)
        requires
            old(self).wf(),
            old(self).has(id as int),
        ensures
            final(self).wf(),
            final(self).pagers == old(self).pagers,
            collapsed(old(self).objects@, final(self).objects@, id as int, pinned@, freed@),
    {
        let ghost before = self.objects@;
        assert(object_wf(before, id as int));
        let b = match self.get(id).backing {
            Some(b) => b,
            None => {
                return Vec::new();
            },
        };
        assert(object_wf(before, b as int));
        if self.get(b).shadow_count != 1 {
            return Vec::new();
        }
        let mut child_slot: Option<Object<P>> = None;
        core::mem::swap(&mut child_slot, &mut self.objects[id]);
        let mut parent_slot: Option<Object<P>> = None;
        core::mem::swap(&mut parent_slot, &mut self.objects[b]);
        let mut freed: Vec<P> = Vec::new();
        let ghost c0 = before[id as int]->0;
        let ghost p0 = before[b as int]->0;
        if let Some(mut child) = child_slot {
            if let Some(mut parent) = parent_slot {
                let mut taken: PageMap<P> = PageMap::new();
                core::mem::swap(&mut taken, &mut parent.pages);
                merge_pages(&mut child.pages, &mut parent.pages, taken, pinned, &mut freed);
                child.resident_count = child.pages.len();
                parent.resident_count = parent.pages.len();
                parent.shadow_count = parent.shadow_count - 1;
                child.backing = parent.backing;
                parent.backing = None;
                parent.refs = parent.refs - 1;
                let ghost c1 = child;
                let ghost p1 = parent;
                self.objects[id] = Some(child);
                if parent.refs == 0 {
                    let ghost gone = freed@;
                    let left = parent.pages.into_entries();
                    give_up(left, &mut freed);
                    proof {
                        assert(left@ == sorted(kept_behind(p0.pages@, pinned@)));
                    }
                    assert(self.objects@ =~= before.update(id as int, Some(c1)).update(
                        b as int,
                        None,
                    ));
                } else {
                    self.objects[b] = Some(parent);
                    assert(self.objects@ =~= before.update(id as int, Some(c1)).update(
                        b as int,
                        Some(p1),
                    ));
                }
                proof {
                    assert(self.objects@ =~= before.update(
                        id as int,
                        self.objects@[id as int],
                    ).update(b as int, self.objects@[b as int]));
                    lemma_collapse_wf(before, self.objects@, id as int, b as int);
                    assert forall|x: int| #[trigger]
                        live(self.objects@, x) implies (self.obj(x).pager matches Some(
                        PagerRef::Vnode(i),
                    ) ==> i < self.pagers@.len()) by {
                        assert(live(before, x));
                    }
                }
            }
        }
        freed
    }

    /// Drop a handle to the object at `id`.  The last handle frees the object, and
    /// with it the handle to its backing object, and so on along the chain.
    /// Returns the pages of the freed objects.
    pub fn release(&mut self, id: usize) -> (freed: Vec<P>)
        requires
            old(self).wf(),
            old(self).has(id as int),
            old(self).obj(id as int).shadow_count < old(self).obj(id as int).refs,
        ensures
            final(self).wf(),
            final(self).pagers == old(self).pagers,
            final(self).objects@ == released(old(self).objects@, id as int),
            freed@ == freed_pages(old(self).objects@, id as int),
    {
        let ghost start = self.objects@;
        let mut freed: Vec<P> = Vec::new();
        let mut cur = id;
        loop
            invariant
                self.wf(),
                self.pagers == old(self).pagers,
                self.has(cur as int),
                self.obj(cur as int).shadow_count < self.obj(cur as int).refs,
                start == old(self).objects@,
                released(start, id as int) == released(self.objects@, cur as int),
                freed_pages(start, id as int) == freed@ + freed_pages(self.objects@, cur as int),
            decreases cur,
        {
            let ghost before = self.objects@;
            let ghost o0 = before[cur as int]->0;
            let ghost freed0 = freed@;
            assert(object_wf(before, cur as int));
            let mut slot: Option<Object<P>> = None;
            core::mem::swap(&mut slot, &mut self.objects[cur]);
            assert(self.objects@ =~= before.update(cur as int, None));
            if let Some(mut o) = slot {
                if o.refs > 1 {
                    o.refs = o.refs - 1;
                    self.objects[cur] = Some(o);
                    proof {
                        assert(self.objects@ =~= before.update(cur as int, self.objects@[cur as int]));
                        lemma_kept(before, self.objects@, cur as int);
                        assert forall|x: int| #[trigger]
                            live(self.objects@, x) implies (self.obj(x).pager matches Some(
                            PagerRef::Vnode(i),
                        ) ==> i < self.pagers@.len()) by {
                            assert(live(before, x));
                        }
                        assert(freed0 + Seq::<P>::empty() =~= freed0);
                        assert(self.objects@ =~= released(before, cur as int));
                    }
                    return freed;
                }
                let next = o.backing;
                give_up(o.pages.into_entries(), &mut freed);
                match next {
                    None => {
                        proof {
                            lemma_drop_wf(before, self.objects@, cur as int);
                            assert forall|x: int| #[trigger]
                                live(self.objects@, x) implies (self.obj(x).pager matches Some(
                                PagerRef::Vnode(i),
                            ) ==> i < self.pagers@.len()) by {
                                assert(live(before, x));
                            }
                            let own = pages_of(o0.pages.entries());
                            assert(freed0 + (own + Seq::<P>::empty()) =~= freed@);
                        }
                        return freed;
                    },
                    Some(b) => {
                        assert(live(before, b as int));
                        assert(object_wf(before, b as int));
                        let ghost p0 = before[b as int]->0;
                        proof {
                            lemma_shadows_at_least(
                                before,
                                b as int,
                                cur as int,
                                before.len() as int,
                            );
                        }
                        let mut below: Option<Object<P>> = None;
                        core::mem::swap(&mut below, &mut self.objects[b]);
                        if let Some(mut p) = below {
                            p.shadow_count = p.shadow_count.saturating_sub(1);
                            self.objects[b] = Some(p);
                        }
                        proof {
                            let p1 = Some(
                                Object { shadow_count: (p0.shadow_count - 1) as usize, ..p0 },
                            );
                            assert(self.objects@ =~= before.update(cur as int, None).update(
                                b as int,
                                p1,
                            ));
                            lemma_unlink_wf(before, self.objects@, cur as int, b as int);
                            assert forall|x: int| #[trigger]
                                live(self.objects@, x) implies (self.obj(x).pager matches Some(
                                PagerRef::Vnode(i),
                            ) ==> i < self.pagers@.len()) by {
                                assert(live(before, x));
                            }
                            let own = pages_of(o0.pages.entries());
                            let rest = freed_pages(self.objects@, b as int);
                            assert(freed0 + (own + rest) =~= freed@ + rest);
                        }
                        cur = b;
                    },
                }
            }
        }
    }
}

impl<P: PhysPage> ObjectStore<P> {
    /// The page at index `k`, looked for along the chain.
    pub fn lookup_page(&self, id: usize, k: u64) -> (r: Option<PhysAddr>)
        requires
            self.wf(),
            self.has(id as int),
        ensures
            r == lookup(self.objects@, id as int, k),
    {
        let mut cur = id;
        loop
            invariant
                self.wf(),
                self.has(cur as int),
                lookup(self.objects@, cur as int, k) == lookup(self.objects@, id as int, k),
            decreases cur,
        {
            assert(object_wf(self.objects@, cur as int));
            let o = self.get(cur);
            if let Some(p) = o.pages.get(k) {
                return Some(p.phys_addr());
            }
            match o.backing {
                Some(b) => {
                    cur = b;
                },
                None => {
                    return None;
                },
            }
        }
    }
}

/// What collapsing the object at `id` does.
pub open spec fn collapsed<P>(
    before: Objects<P>,
    after: Objects<P>,
    id: int,
    pinned: Seq<u64>,
    freed: Seq<P>,
) -> bool {
    let c = before[id]->0;
    match c.backing {
        None => after == before && freed.len() == 0,
        Some(b) => {
            let p = before[b as int]->0;
            if p.shadow_count != 1 {
                after == before && freed.len() == 0
            } else {
                let c1 = after[id]->0;
                let p1 = after[b as int]->0;
                let gone = hidden(c.pages@, p.pages.entries(), pinned);
                &&& after.len() == before.len()
                &&& after == before.update(id, after[id]).update(b as int, after[b as int])
                &&& after[id] is Some
                &&& c1.pages@ == merged(c.pages@, p.pages@, pinned)
                &&& c1.backing == p.backing
                &&& c1 == (Object {
                    pages: c1.pages,
                    backing: c1.backing,
                    resident_count: c1.resident_count,
                    ..c
                })
                &&& if p.refs == 1 {
                    &&& after[b as int] is None
                    &&& freed == gone + pages_of(sorted(kept_behind(p.pages@, pinned)))
                } else {
                    &&& after[b as int] is Some
                    &&& p1.pages@ == kept_behind(p.pages@, pinned)
                    &&& p1 == (Object {
                        pages: p1.pages,
                        resident_count: p1.resident_count,
                        backing: None,
                        shadow_count: 0,
                        refs: (p.refs - 1) as usize,
                        ..p
                    })
                    &&& freed == gone
                }
            }
        },
    }
}

/// Move the pages out of a sequence of entries.
fn give_up<P>(entries: Vec<(u64, P)>, freed: &mut Vec<P>)
    ensures
        final(freed)@ == old(freed)@ + pages_of(entries@),
{
    let mut rest = entries;
    let ghost all = entries@;
    let ghost before = freed@;
    let ghost mut done: int = 0;
    while rest.len() > 0
        invariant
            0 <= done,
            done + rest@.len() == all.len(),
            rest@ == all.skip(done),
            freed@ == before + pages_of(all.take(done)),
        decreases rest@.len(),
    {
        let e = rest.remove(0);
        assert(e == all[done]);
        assert(rest@ =~= all.skip(done + 1));
        assert(pages_of(all.take(done + 1)) =~= pages_of(all.take(done)).push(e.1));
        freed.push(e.1);
        assert(freed@ =~= before + pages_of(all.take(done + 1)));
        proof {
            done = done + 1;
        }
    }
    assert(all.take(done) =~= all);
}

/// Whether `k` is one of `list`.
fn contains(list: &Vec<u64>, k: u64) -> (r: bool)
    ensures
        r == list@.contains(k),
{
    let mut i: usize = 0;
    while i < list.len()
        invariant
            i <= list@.len(),
            forall|j: int| 0 <= j < i ==> list@[j] != k,
        decreases list@.len() - i,
    {
        if list[i] == k {
            assert(list@[i as int] == k);
            return true;
        }
        i += 1;
    }
    false
}

/// Deal the pages of `behind` out: pinned ones stay behind, hidden ones are given
/// up, the others go to `own`.
fn merge_pages<P>(
    own: &mut PageMap<P>,
    stay: &mut PageMap<P>,
    behind: PageMap<P>,
    pinned: &Vec<u64>,
    freed: &mut Vec<P>,
)
    requires
        old(own).wf(),
        old(stay).wf(),
        old(stay)@ == Map::<u64, P>::empty(),
        behind.wf(),
        old(freed)@.len() == 0,
    ensures
        final(own).wf(),
        final(stay).wf(),
        final(own)@ == merged(old(own)@, behind@, pinned@),
        final(stay)@ == kept_behind(behind@, pinned@),
        final(stay).count() == final(stay)@.dom().len(),
        final(freed)@ == hidden(old(own)@, behind.entries(), pinned@),
{
    let ghost all = behind.entries();
    let ghost own0 = own@;
    let mut rest = behind.into_entries();
    let ghost mut done: int = 0;
    proof {
        assert(as_map(all.take(0)) =~= Map::<u64, P>::empty());
        assert(own@ =~= merged(own0, as_map(all.take(0)), pinned@));
        assert(stay@ =~= kept_behind(as_map(all.take(0)), pinned@));
        assert(all.take(0) =~= Seq::empty());
        assert(freed@ =~= hidden(own0, all.take(0), pinned@));
    }
    while rest.len() > 0
        invariant
            own.wf(),
            stay.wf(),
            rising(all),
            0 <= done,
            done + rest@.len() == all.len(),
            rest@ == all.skip(done),
            own@ == merged(own0, as_map(all.take(done)), pinned@),
            stay@ == kept_behind(as_map(all.take(done)), pinned@),
            freed@ == hidden(own0, all.take(done), pinned@),
        decreases rest@.len(),
    {
        let ghost before = all.take(done);
        let ghost now = all.take(done + 1);
        let (k, p) = rest.remove(0);
        proof {
            assert((k, p) == all[done]);
            assert(rest@ =~= all.skip(done + 1));
            lemma_take_one(all, done);
            assert(now.drop_last() =~= before);
            assert(now.last() == (k, p));
        }
        if contains(pinned, k) {
            let _ = stay.insert(k, p);
            proof {
                assert(own@ =~= merged(own0, as_map(now), pinned@));
                assert(stay@ =~= kept_behind(as_map(now), pinned@));
            }
        } else if own.get(k).is_some() {
            assert(own0.dom().contains(k));
            freed.push(p);
            proof {
                assert(own@ =~= merged(own0, as_map(now), pinned@));
                assert(stay@ =~= kept_behind(as_map(now), pinned@));
            }
        } else {
            let _ = own.insert(k, p);
            proof {
                assert(own@ =~= merged(own0, as_map(now), pinned@));
                assert(stay@ =~= kept_behind(as_map(now), pinned@));
            }
        }
        proof {
            done = done + 1;
        }
    }
    proof {
        assert(all.take(done) =~= all);
        crate::mm::vm::page_map::lemma_count(stay.entries());
    }
}

/// One more entry adds one index.
proof fn lemma_take_one<P>(s: Seq<(u64, P)>, n: int)
    requires
        rising(s),
        0 <= n < s.len(),
    ensures
        as_map(s.take(n + 1)) == as_map(s.take(n)).insert(s[n].0, s[n].1),
        !as_map(s.take(n)).dom().contains(s[n].0),
{
    let a = s.take(n);
    let b = s.take(n + 1);
    let k = s[n].0;
    assert(rising(a) && rising(b));
    assert forall|x: u64| listed(b, x) <==> listed(a, x) || x == k by {
        if listed(b, x) {
            let i = choose|i: int| 0 <= i < b.len() && (#[trigger] b[i]).0 == x;
            if i < n {
                assert(a[i] == b[i]);
            }
        }
        if listed(a, x) {
            let i = choose|i: int| 0 <= i < a.len() && (#[trigger] a[i]).0 == x;
            assert(b[i] == a[i]);
        }
        assert(b[n].0 == k);
    }
    if listed(a, k) {
        let i = choose|i: int| 0 <= i < a.len() && (#[trigger] a[i]).0 == k;
        assert(s[i].0 < s[n].0);
    }
    assert forall|x: u64| listed(b, x) implies #[trigger] page_at(b, x) == as_map(a).insert(
        k,
        s[n].1,
    )[x] by {
        let i = choose|i: int| 0 <= i < b.len() && (#[trigger] b[i]).0 == x;
        lemma_at(b, i);
        if i < n {
            assert(a[i] == b[i]);
            lemma_at(a, i);
            assert(s[i].0 < s[n].0);
        } else {
            lemma_at(b, n);
        }
    }
    assert(as_map(b) =~= as_map(a).insert(k, s[n].1));
}

/// Changing an object keeps the store well formed where its chain and its counts
/// stay right.
proof fn lemma_kept<P>(before: Objects<P>, after: Objects<P>, id: int)
    requires
        store_wf(before),
        live(before, id),
        live(after, id),
        after == before.update(id, after[id]),
        ({
            let o = before[id]->0;
            let n = after[id]->0;
            &&& n.pages.wf()
            &&& n.resident_count == n.pages.count()
            &&& n.backing == o.backing
            &&& n.shadow_count == o.shadow_count
            &&& n.refs >= o.shadow_count
            &&& n.refs >= 1
        }),
    ensures
        store_wf(after),
{
    assert forall|x: int| #[trigger] live(after, x) implies object_wf(after, x) by {
        assert(live(before, x));
        assert(object_wf(before, x));
        lemma_shadows_update(before, id, after[id], x, before.len() as int);
        if let Some(b) = (after[x]->0).backing {
            assert(live(before, b as int));
            assert(live(after, b as int));
        }
    }
}

/// An object without shadows and without a backing object can be taken out.
proof fn lemma_drop_wf<P>(before: Objects<P>, after: Objects<P>, id: int)
    requires
        store_wf(before),
        live(before, id),
        after == before.update(id, None),
        (before[id]->0).shadow_count == 0,
        (before[id]->0).backing is None,
    ensures
        store_wf(after),
{
    assert(object_wf(before, id));
    assert forall|x: int| #[trigger] live(after, x) implies object_wf(after, x) by {
        assert(live(before, x));
        assert(object_wf(before, x));
        lemma_shadows_update(before, id, None, x, before.len() as int);
        if let Some(b) = (after[x]->0).backing {
            if b == id {
                lemma_shadows_at_least(before, id, x, before.len() as int);
            }
        }
    }
}

/// An object without shadows can be taken out where its backing object is told.
proof fn lemma_unlink_wf<P>(before: Objects<P>, after: Objects<P>, id: int, b: int)
    requires
        store_wf(before),
        live(before, id),
        live(before, b),
        b < id,
        (before[id]->0).shadow_count == 0,
        (before[id]->0).backing == Some(b as usize),
        0 <= b <= usize::MAX,
        ({
            let p = before[b]->0;
            after == before.update(id, None).update(
                b,
                Some(Object { shadow_count: (p.shadow_count - 1) as usize, ..p }),
            )
        }),
    ensures
        store_wf(after),
        (after[b]->0).shadow_count < (after[b]->0).refs,
{
    let p = before[b]->0;
    let p1 = Some(Object { shadow_count: (p.shadow_count - 1) as usize, ..p });
    let n = before.len() as int;
    assert(object_wf(before, id));
    assert(object_wf(before, b));
    lemma_shadows_at_least(before, b, id, n);
    assert forall|x: int| #[trigger] live(after, x) implies object_wf(after, x) by {
        assert(live(before, x));
        assert(object_wf(before, x));
        lemma_shadows_update(before, id, None, x, n);
        lemma_shadows_update(before.update(id, None), b, p1, x, n);
        if let Some(y) = (after[x]->0).backing {
            if y == id {
                lemma_shadows_at_least(before, id, x, n);
            }
        }
    }
}

/// Only one object points to a backing object with a single shadow.
proof fn lemma_sole_shadow<P>(objs: Objects<P>, b: int, id: int, x: int)
    requires
        store_wf(objs),
        live(objs, b),
        live(objs, id),
        points(objs[id], b) == 1,
        (objs[b]->0).shadow_count == 1,
        live(objs, x),
        points(objs[x], b) == 1,
    ensures
        x == id,
{
    assert(object_wf(objs, b));
    let n = objs.len() as int;
    if x < id {
        lemma_shadows_two(objs, b, x, id, n);
    }
    if id < x {
        lemma_shadows_two(objs, b, id, x, n);
    }
}

proof fn lemma_collapse_wf<P>(before: Objects<P>, after: Objects<P>, id: int, b: int)
    requires
        store_wf(before),
        live(before, id),
        live(before, b),
        0 <= b < id,
        b <= usize::MAX,
        (before[id]->0).backing == Some(b as usize),
        (before[b]->0).shadow_count == 1,
        after == before.update(id, after[id]).update(b, after[b]),
        after[id] is Some,
        ({
            let c = after[id]->0;
            &&& c.pages.wf()
            &&& c.resident_count == c.pages.count()
            &&& c.backing == (before[b]->0).backing
            &&& c.shadow_count == (before[id]->0).shadow_count
            &&& c.refs == (before[id]->0).refs
        }),
        after[b] is None <==> (before[b]->0).refs == 1,
        after[b] matches Some(p) ==> {
            &&& p.pages.wf()
            &&& p.resident_count == p.pages.count()
            &&& p.backing is None
            &&& p.shadow_count == 0
            &&& p.refs == (before[b]->0).refs - 1
        },
    ensures
        store_wf(after),
{
    let n = before.len() as int;
    assert(object_wf(before, id));
    assert(object_wf(before, b));
    assert forall|x: int| #[trigger] live(after, x) implies object_wf(after, x) by {
        assert(live(before, x));
        assert(object_wf(before, x));
        lemma_shadows_update(before, id, after[id], x, n);
        lemma_shadows_update(before.update(id, after[id]), b, after[b], x, n);
        if let Some(y) = (after[x]->0).backing {
            if x != id && y == b {
                lemma_sole_shadow(before, b, id, x);
            }
            if x == id {
                assert(live(before, y as int));
                assert(y < b);
            }
        }
        if x == b {
            if let Some(y) = (before[b]->0).backing {
                assert(y < b);
            }
        }
    }
}

/// What an object sees depends on its chain only: objects that keep their pages
/// and their backing object see the same.
proof fn lemma_lookup_same<P: PhysPage>(before: Objects<P>, after: Objects<P>, id: int, k: u64)
    requires
        store_wf(before),
        forall|x: int| #[trigger]
            live(before, x) && x <= id ==> live(after, x) && (after[x]->0).pages@ == (
            before[x]->0).pages@ && (after[x]->0).backing == (before[x]->0).backing,
        live(before, id),
    ensures
        lookup(after, id, k) == lookup(before, id, k),
    decreases id,
{
    assert(live(after, id));
    assert(object_wf(before, id));
    if let Some(b) = (before[id]->0).backing {
        lemma_lookup_same(before, after, b as int, k);
    }
}

/// A new shadow sees exactly what its parent sees, and so does every other object
/// see what it saw.
pub proof fn law_shadow_sees_parent<P: PhysPage>(
    before: Objects<P>,
    after: Objects<P>,
    parent: int,
    id: int,
    k: u64,
)
    requires
        store_wf(before),
        store_wf(after),
        live(before, parent),
        id == before.len(),
        parent <= usize::MAX,
        after == before.update(
            parent,
            Some(
                Object {
                    shadow_count: ((before[parent]->0).shadow_count + 1) as usize,
                    ..(before[parent]->0)
                },
            ),
        ).push(after[id]),
        after[id] matches Some(o) && o.pages@ == Map::<u64, P>::empty() && o.backing == Some(
            parent as usize,
        ),
    ensures
        lookup(after, id, k) == lookup(before, parent, k),
        forall|x: int| #[trigger] live(before, x) ==> lookup(after, x, k) == lookup(before, x, k),
{
    assert forall|x: int| #[trigger] live(before, x) implies lookup(after, x, k) == lookup(
        before,
        x,
        k,
    ) by {
        lemma_lookup_same(before, after, x, k);
    }
    assert(live(after, id));
}

/// Whether the chain of `x` passes through `id`.
pub open spec fn in_chain<P>(objs: Objects<P>, x: int, id: int) -> bool
    decreases x,
{
    if !live(objs, x) {
        false
    } else if x == id {
        true
    } else {
        match (objs[x]->0).backing {
            Some(b) => if b < x {
                in_chain(objs, b as int, id)
            } else {
                false
            },
            None => false,
        }
    }
}

/// A page put into a shadow is seen through that shadow, and through no object
/// whose chain does not pass through it: not its parent, not its siblings.
pub proof fn law_write_is_private<P: PhysPage>(
    before: Objects<P>,
    after: Objects<P>,
    id: int,
    index: u64,
    page: P,
    x: int,
    k: u64,
)
    requires
        store_wf(before),
        live(before, id),
        after == before.update(id, after[id]),
        after[id] matches Some(o) && o.pages@ == (before[id]->0).pages@.insert(index, page)
            && o.backing == (before[id]->0).backing,
        live(before, x),
    ensures
        lookup(after, id, index) == Some(page.at()),
        !in_chain(before, x, id) || k != index ==> lookup(after, x, k) == lookup(before, x, k),
    decreases x,
{
    assert(live(after, id));
    assert(object_wf(before, x));
    assert(live(after, x));
    if !in_chain(before, x, id) || k != index {
        if let Some(b) = (before[x]->0).backing {
            if (x != id || k != index) {
                law_write_is_private(before, after, id, index, page, b as int, k);
            }
        }
    }
}

/// Collapsing does not change what any object sees, but for the object that was
/// merged away, as long as no page that stays behind is needed.
pub proof fn law_collapse_keeps_view<P: PhysPage>(
    before: Objects<P>,
    after: Objects<P>,
    id: int,
    pinned: Seq<u64>,
    freed: Seq<P>,
    x: int,
    k: u64,
)
    requires
        store_wf(before),
        live(before, id),
        collapsed(before, after, id, pinned, freed),
        live(before, x),
        (before[id]->0).backing matches Some(b) ==> x != b && (pinned.contains(k) && (
        before[b as int]->0).pages@.dom().contains(k) ==> (before[id]->0).pages@.dom().contains(k)),
    ensures
        lookup(after, x, k) == lookup(before, x, k),
    decreases x,
{
    assert(object_wf(before, id));
    assert(object_wf(before, x));
    if let Some(b) = (before[id]->0).backing {
        assert(object_wf(before, b as int));
        if (before[b as int]->0).shadow_count == 1 {
            if x == id {
                assert(live(after, id));
                let c = before[id]->0;
                let p = before[b as int]->0;
                let m = merged(c.pages@, p.pages@, pinned);
                let behind = lookup(before, b as int, k);
                assert(!c.pages@.dom().contains(k) ==> lookup(before, id, k) == behind);
                assert(p.pages@.dom().contains(k) ==> behind == Some(p.pages@[k].at()));
                if !m.dom().contains(k) {
                    if let Some(g) = p.backing {
                        assert(g < b);
                        lemma_lookup_below(before, after, id, b as int, g as int, k);
                    }
                }
            } else {
                if let Some(y) = (before[x]->0).backing {
                    if y == b {
                        lemma_sole_shadow(before, b as int, id, x);
                    }
                    assert(live(after, x));
                    law_collapse_keeps_view(before, after, id, pinned, freed, y as int, k);
                }
                assert(live(after, x));
            }
        }
    }
}

/// Below a collapsed pair nothing changes.
proof fn lemma_lookup_below<P: PhysPage>(
    before: Objects<P>,
    after: Objects<P>,
    id: int,
    b: int,
    g: int,
    k: u64,
)
    requires
        store_wf(before),
        after == before.update(id, after[id]).update(b, after[b]),
        live(before, g),
        0 <= g < b < id < before.len(),
    ensures
        lookup(after, g, k) == lookup(before, g, k),
    decreases g,
{
    assert(live(after, g));
    assert(object_wf(before, g));
    if let Some(y) = (before[g]->0).backing {
        lemma_lookup_below(before, after, id, b, y as int, k);
    }
}

/// Dropping a handle does not change what any remaining object sees.
pub proof fn law_release_keeps_view<P: PhysPage>(before: Objects<P>, id: int, x: int, k: u64)
    requires
        store_wf(before),
        store_wf(released(before, id)),
        live(before, id),
        live(released(before, id), x),
    ensures
        lookup(released(before, id), x, k) == lookup(before, x, k),
{
    lemma_released(before, id);
    let after = released(before, id);
    lemma_survivor(before, after, x, k);
}

/// Releasing takes objects away and changes counts, nothing else.
proof fn lemma_released<P>(objs: Objects<P>, id: int)
    ensures
        released(objs, id).len() == objs.len(),
        forall|x: int| #[trigger]
            live(released(objs, id), x) ==> live(objs, x) && (released(objs, id)[x]->0).pages == (
            objs[x]->0).pages && (released(objs, id)[x]->0).backing == (objs[x]->0).backing,
    decreases id,
{
    if live(objs, id) {
        let o = objs[id]->0;
        if o.refs <= 1 {
            if let Some(b) = o.backing {
                if 0 <= b < id && live(objs, b as int) {
                    let p = objs[b as int]->0;
                    let mid = objs.update(id, None).update(
                        b as int,
                        Some(Object { shadow_count: (p.shadow_count - 1) as usize, ..p }),
                    );
                    lemma_released(mid, b as int);
                    assert forall|x: int| #[trigger] live(released(objs, id), x) implies live(objs, x)
                        && (released(objs, id)[x]->0).pages == (objs[x]->0).pages && (released(
                        objs,
                        id,
                    )[x]->0).backing == (objs[x]->0).backing by {
                        assert(live(mid, x));
                    }
                }
            }
        }
    }
}

proof fn lemma_survivor<P: PhysPage>(before: Objects<P>, after: Objects<P>, x: int, k: u64)
    requires
        store_wf(after),
        live(after, x),
        after.len() == before.len(),
        forall|y: int| #[trigger]
            live(after, y) ==> live(before, y) && (after[y]->0).pages == (before[y]->0).pages && (
            after[y]->0).backing == (before[y]->0).backing,
    ensures
        lookup(after, x, k) == lookup(before, x, k),
    decreases x,
{
    assert(object_wf(after, x));
    if let Some(b) = (after[x]->0).backing {
        lemma_survivor(before, after, b as int, k);
    }
}

/// A shadow is one deeper than its backing object.
pub proof fn law_depth_of_shadow<P>(objs: Objects<P>, id: int)
    requires
        store_wf(objs),
        live(objs, id),
    ensures
        (objs[id]->0).backing is None ==> depth(objs, id) == 0,
        (objs[id]->0).backing matches Some(b) ==> depth(objs, id) == depth(objs, b as int) + 1,
        0 <= depth(objs, id) <= id,
    decreases id,
{
    assert(object_wf(objs, id));
    if let Some(b) = (objs[id]->0).backing {
        law_depth_of_shadow(objs, b as int);
    }
}

/// What is seen through an object at an index is its own page there, whatever lies behind; or else, however
/// long the chain is, what is seen through the object behind it; and nothing where there is neither.
pub proof fn law_own_page_comes_first<P: PhysPage>(objs: Objects<P>, id: int, k: u64)
    requires
        store_wf(objs),
        live(objs, id),
    ensures
        (objs[id]->0).pages@.dom().contains(k) ==> lookup(objs, id, k) == Some((objs[id]->0).pages@[k].at()),
        !(objs[id]->0).pages@.dom().contains(k) ==> lookup(objs, id, k) == match (objs[id]->0).backing {
            Some(b) => lookup(objs, b as int, k),
            None => None,
        },
{
    assert(object_wf(objs, id));
}

} // verus!
