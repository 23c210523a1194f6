//! The pages of an object, by their index in it.
use std::collections::BTreeMap;
use vstd::prelude::*;
use vstd::std_specs::btree::increasing_seq;
use vstd::std_specs::cmp::OrdSpec;
use vstd::std_specs::iter::IteratorSpec;

verus! {

/// Pages by index.
#[derive(Debug)]
pub struct PageMap<P> {
    map: BTreeMap<u64, P>,
}

/// The indices rise strictly.
pub open spec fn rising<P>(s: Seq<(u64, P)>) -> bool {
    forall|i: int, j: int| 0 <= i < j < s.len() ==> (#[trigger] s[i]).0 < (#[trigger] s[j]).0
}

/// Whether some entry has the index.
pub open spec fn listed<P>(s: Seq<(u64, P)>, k: u64) -> bool {
    exists|i: int| 0 <= i < s.len() && (#[trigger] s[i]).0 == k
}

/// The page with the index.
pub open spec fn page_at<P>(s: Seq<(u64, P)>, k: u64) -> P {
    s[choose|i: int| 0 <= i < s.len() && (#[trigger] s[i]).0 == k].1
}

/// The entries as a map.
pub open spec fn as_map<P>(s: Seq<(u64, P)>) -> Map<u64, P> {
    Map::new(|k: u64| listed(s, k), |k: u64| page_at(s, k))
}

/// The entry with an index is the one found for it.
pub proof fn lemma_at<P>(s: Seq<(u64, P)>, i: int)
    requires
        rising(s),
        0 <= i < s.len(),
    ensures
        listed(s, s[i].0),
        page_at(s, s[i].0) == s[i].1,
        as_map(s).dom().contains(s[i].0),
        as_map(s)[s[i].0] == s[i].1,
{
    let k = s[i].0;
    let j = choose|j: int| 0 <= j < s.len() && (#[trigger] s[j]).0 == k;
    assert(0 <= j < s.len() && s[j].0 == k);
    if j < i {
        assert(s[j].0 < s[i].0);
    }
    if i < j {
        assert(s[i].0 < s[j].0);
    }
}

/// There are as many indices as entries.
pub proof fn lemma_count<P>(s: Seq<(u64, P)>)
    requires
        rising(s),
    ensures
        as_map(s).dom().finite(),
        as_map(s).dom().len() == s.len(),
    decreases s.len(),
{
    if s.len() == 0 {
        assert(as_map(s).dom() =~= Set::empty());
    } else {
        let t = s.drop_last();
        lemma_count(t);
        let k = s.last().0;
        assert forall|x: u64| listed(s, x) <==> listed(t, x) || x == k by {
            if listed(s, x) {
                let i = choose|i: int| 0 <= i < s.len() && (#[trigger] s[i]).0 == x;
                if i < t.len() {
                    assert(t[i] == s[i]);
                }
            }
            if listed(t, x) {
                let i = choose|i: int| 0 <= i < t.len() && (#[trigger] t[i]).0 == x;
                assert(s[i] == t[i]);
            }
            if x == k {
                assert(s[s.len() - 1].0 == x);
            }
        }
        assert(!listed(t, k)) by {
            if listed(t, k) {
                let i = choose|i: int| 0 <= i < t.len() && (#[trigger] t[i]).0 == k;
                assert(s[i] == t[i]);
                assert(s[i].0 < s[s.len() - 1].0);
            }
        }
        assert(as_map(s).dom() =~= as_map(t).dom().insert(k));
    }
}

/// The entries of a map in the order of their indices.
pub open spec fn sorted<P>(m: Map<u64, P>) -> Seq<(u64, P)> {
    choose|s: Seq<(u64, P)>| rising(s) && as_map(s) == m
}

/// Entries in order are known by the map that they make.
pub proof fn lemma_same_entries<P>(s: Seq<(u64, P)>, t: Seq<(u64, P)>)
    requires
        rising(s),
        rising(t),
        as_map(s) == as_map(t),
    ensures
        s == t,
    decreases s.len(),
{
    lemma_count(s);
    lemma_count(t);
    if s.len() == 0 {
        assert(s =~= t);
    } else {
        let n = s.len() - 1;
        lemma_at(s, n);
        lemma_at(t, n);
        assert(listed(t, s[n].0));
        assert(listed(s, t[n].0));
        let i = choose|i: int| 0 <= i < t.len() && (#[trigger] t[i]).0 == s[n].0;
        let j = choose|j: int| 0 <= j < s.len() && (#[trigger] s[j]).0 == t[n].0;
        if i < n {
            assert(t[i].0 < t[n].0);
        }
        if j < n {
            assert(s[j].0 < s[n].0);
        }
        assert(s[n] == t[n]);
        lemma_map_remove(s, n);
        lemma_map_remove(t, n);
        lemma_same_entries(s.remove(n), t.remove(n));
        assert forall|x: int| 0 <= x < s.len() implies s[x] == t[x] by {
            if x < n {
                assert(s.remove(n)[x] == t.remove(n)[x]);
            }
        }
        assert(s =~= t);
    }
}

/// Entries in order are those of the map that they make.
pub proof fn lemma_sorted<P>(s: Seq<(u64, P)>)
    requires
        rising(s),
    ensures
        sorted(as_map(s)) == s,
{
    let t = sorted(as_map(s));
    assert(rising(t) && as_map(t) == as_map(s));
    lemma_same_entries(s, t);
}

/// The place of the first index that is not below `k`.
proof fn lemma_place<P>(s: Seq<(u64, P)>, k: u64) -> (i: int)
    requires
        rising(s),
    ensures
        0 <= i <= s.len(),
        forall|j: int| 0 <= j < i ==> (#[trigger] s[j]).0 < k,
        forall|j: int| i <= j < s.len() ==> (#[trigger] s[j]).0 >= k,
        listed(s, k) <==> i < s.len() && s[i].0 == k,
    decreases s.len(),
{
    if s.len() == 0 {
        0
    } else {
        let n = s.len() - 1;
        let t = s.drop_last();
        let i = lemma_place(t, k);
        assert forall|j: int| 0 <= j < i implies (#[trigger] s[j]).0 < k by {
            assert(t[j] == s[j]);
        }
        assert forall|j: int| i <= j < n implies (#[trigger] s[j]).0 >= k by {
            assert(t[j] == s[j]);
        }
        let r = if i == n && s[n].0 < k {
            i + 1
        } else {
            i
        };
        if i < n {
            assert(s[i].0 < s[n].0);
        }
        if listed(s, k) {
            let j = choose|j: int| 0 <= j < s.len() && (#[trigger] s[j]).0 == k;
            if r < j {
                assert(s[r].0 < s[j].0);
            }
        }
        r
    }
}

/// Indices in the order of the tree rise.
pub proof fn lemma_increasing(keys: Seq<u64>)
    requires
        increasing_seq(keys),
    ensures
        forall|i: int, j: int| 0 <= i < j < keys.len() ==> #[trigger] keys[i] < #[trigger] keys[j],
{
    broadcast use {vstd::std_specs::btree::group_btree_axioms, vstd::laws_cmp::group_laws_cmp};

    assert forall|i: int, j: int| 0 <= i < j < keys.len() implies #[trigger] keys[i]
        < #[trigger] keys[j] by {
        assert(keys[i].cmp_spec(&keys[j]) is Less);
    }
}

impl<P> PageMap<P> {
    /// The pages in the order of their indices.
    pub open spec fn entries(&self) -> Seq<(u64, P)> {
        sorted(self@)
    }

    /// The pages can be put in order, which holds of every map that was made.
    pub open spec fn wf(&self) -> bool {
        rising(self.entries()) && as_map(self.entries()) == self@
    }

    /// Number of pages.
    pub open spec fn count(&self) -> nat {
        self.entries().len()
    }

    /// The pages, each with its index, in the order of these.
    pub fn list(&self) -> (r: Vec<(u64, &P)>)
        ensures
            self.wf(),
            r@.len() == self.entries().len(),
            forall|i: int|
                0 <= i < r@.len() ==> (#[trigger] r@[i]).0 == self.entries()[i].0 && *r@[i].1
                    == self.entries()[i].1,
    {
        broadcast use vstd::std_specs::btree::group_btree_axioms;

        let mut r: Vec<(u64, &P)> = Vec::new();
        let ghost v = self.map.iter().remaining();
        for e in it: self.map.iter()
            invariant
                it.seq() == v,
                r@.len() == it.index(),
                forall|j: int|
                    0 <= j < r@.len() ==> (#[trigger] r@[j]).0 == *v[j].0 && *r@[j].1 == *v[j].1,
        {
            r.push((*e.0, e.1));
        }
        proof {
            let s = Seq::new(r@.len(), |i: int| (r@[i].0, *r@[i].1));
            let keys = v.map_values(|kv: (&u64, &P)| *kv.0);
            lemma_increasing(keys);
            assert forall|i: int, j: int| 0 <= i < j < s.len() implies (#[trigger] s[i]).0 < (
            #[trigger] s[j]).0 by {
                assert(keys[i] == s[i].0 && keys[j] == s[j].0);
            }
            assert forall|k: u64| listed(s, k) <==> self@.dom().contains(k) by {
                if listed(s, k) {
                    let i = choose|i: int| 0 <= i < s.len() && (#[trigger] s[i]).0 == k;
                    assert(self.map@.contains_key(*v[i].0));
                }
                if self.map@.contains_key(k) {
                    assert(v.contains((&k, &self.map@[k])));
                    let i = choose|i: int| 0 <= i < v.len() && v[i] == (&k, &self.map@[k]);
                    assert(s[i].0 == k);
                }
            }
            assert forall|k: u64| listed(s, k) implies #[trigger] page_at(s, k) == self@[k] by {
                let i = choose|i: int| 0 <= i < s.len() && (#[trigger] s[i]).0 == k;
                lemma_at(s, i);
                assert(self.map@[*v[i].0] == *v[i].1);
            }
            assert(as_map(s) =~= self@);
            lemma_sorted(s);
        }
        r
    }

    /// The pages in the order of their indices.
    pub fn values(&self) -> (r: Vec<&P>)
        ensures
            self.wf(),
            r@.len() == self.entries().len(),
            forall|i: int| 0 <= i < r@.len() ==> *#[trigger] r@[i] == self.entries()[i].1,
    {
        let all = self.list();
        let mut r: Vec<&P> = Vec::new();
        let mut i: usize = 0;
        while i < all.len()
            invariant
                i <= all@.len(),
                all@.len() == self.entries().len(),
                forall|j: int| 0 <= j < all@.len() ==> *(#[trigger] all@[j]).1 == self.entries()[j].1,
                r@.len() == i,
                forall|j: int| 0 <= j < i ==> *#[trigger] r@[j] == self.entries()[j].1,
            decreases all@.len() - i,
        {
            r.push(all[i].1);
            i += 1;
        }
        r
    }

    /// The indices in order.
    fn indices(&self) -> (r: Vec<u64>)
        ensures
            self.wf(),
            r@.len() == self.entries().len(),
            forall|i: int| 0 <= i < r@.len() ==> #[trigger] r@[i] == self.entries()[i].0,
    {
        let all = self.list();
        let mut r: Vec<u64> = Vec::new();
        let mut i: usize = 0;
        while i < all.len()
            invariant
                i <= all@.len(),
                all@.len() == self.entries().len(),
                forall|j: int| 0 <= j < all@.len() ==> (#[trigger] all@[j]).0 == self.entries()[j].0,
                r@.len() == i,
                forall|j: int| 0 <= j < i ==> #[trigger] r@[j] == self.entries()[j].0,
            decreases all@.len() - i,
        {
            r.push(all[i].0);
            i += 1;
        }
        r
    }

    pub fn new() -> (r: Self)
        ensures
            r.wf(),
            r.count() == 0,
            r@ == Map::<u64, P>::empty(),
    {
        let r = PageMap { map: BTreeMap::new() };
        proof {
            let none = Seq::<(u64, P)>::empty();
            assert(as_map(none) =~= Map::<u64, P>::empty());
            lemma_sorted(none);
        }
        r
    }

    /// Number of pages.
    pub fn len(&self) -> (r: usize)
        requires
            self.wf(),
        ensures
            r == self.count(),
    {
        proof {
            lemma_count(self.entries());
        }
        self.map.len()
    }

    /// The page at index `k`.
    pub fn get(&self, k: u64) -> (r: Option<&P>)
        ensures
            match r {
                Some(p) => self@.dom().contains(k) && *p == self@[k],
                None => !self@.dom().contains(k),
            },
    {
        self.map.get(&k)
    }

    /// Put a page in at index `k`; the page that was there is returned.
    pub fn insert(&mut self, k: u64, p: P) -> (r: Option<P>)
        requires
            old(self).wf(),
        ensures
            final(self).wf(),
            final(self)@ == old(self)@.insert(k, p),
            match r {
                Some(q) => old(self)@.dom().contains(k) && q == old(self)@[k],
                None => !old(self)@.dom().contains(k),
            },
            final(self).count() == old(self).count() + if r is None {
                1int
            } else {
                0
            },
    {
        proof {
            let s = self.entries();
            let i = lemma_place(s, k);
            let fresh = !listed(s, k);
            let t = if fresh {
                s.insert(i, (k, p))
            } else {
                s.update(i, (k, p))
            };
            lemma_map_insert(s, t, k, p, i, fresh);
            lemma_sorted(t);
            if !fresh {
                lemma_at(s, i);
            }
        }
        self.map.insert(k, p)
    }

    /// Take the page at index `k` out.
    pub fn remove(&mut self, k: u64) -> (r: Option<P>)
        requires
            old(self).wf(),
        ensures
            final(self).wf(),
            final(self)@ == old(self)@.remove(k),
            match r {
                Some(q) => old(self)@.dom().contains(k) && q == old(self)@[k],
                None => !old(self)@.dom().contains(k),
            },
            final(self).count() == old(self).count() - if r is Some {
                1int
            } else {
                0
            },
    {
        proof {
            let s = self.entries();
            let i = lemma_place(s, k);
            if listed(s, k) {
                lemma_map_remove(s, i);
                lemma_sorted(s.remove(i));
                lemma_at(s, i);
            } else {
                assert(self@.remove(k) =~= self@);
            }
        }
        self.map.remove(&k)
    }

    /// Take out every page whose index is not below `from`; they are returned in
    /// the order of their indices.
    pub fn split_from(&mut self, from: u64) -> (r: Vec<(u64, P)>)
        requires
            old(self).wf(),
        ensures
            final(self).wf(),
            rising(r@),
            final(self)@ == old(self)@.restrict(
                Set::new(|k: u64| old(self)@.dom().contains(k) && k < from),
            ),
            as_map(r@) == old(self)@.restrict(
                Set::new(|k: u64| old(self)@.dom().contains(k) && k >= from),
            ),
            old(self).entries() == final(self).entries() + r@,
            final(self).count() + r@.len() == old(self).count(),
    {
        let keys = self.indices();
        let ghost s = self.entries();
        let mut cut: usize = 0;
        while cut < keys.len() && keys[cut] < from
            invariant
                cut <= keys@.len(),
                forall|j: int| 0 <= j < cut ==> #[trigger] keys@[j] < from,
            decreases keys@.len() - cut,
        {
            cut += 1;
        }
        let mut r: Vec<(u64, P)> = Vec::new();
        let mut i: usize = cut;
        proof {
            assert(s.take(cut as int) + s.skip(cut as int) =~= s);
            assert(s.subrange(cut as int, cut as int) =~= Seq::empty());
        }
        while i < keys.len()
            invariant
                cut <= i <= keys@.len(),
                rising(s),
                keys@.len() == s.len(),
                forall|j: int| 0 <= j < keys@.len() ==> #[trigger] keys@[j] == s[j].0,
                self.wf(),
                self.entries() == s.take(cut as int) + s.skip(i as int),
                r@ == s.subrange(cut as int, i as int),
            decreases keys@.len() - i,
        {
            let ghost now = self.entries();
            let ghost c = cut as int;
            proof {
                assert(now[c] == s[i as int]);
                lemma_at(now, c);
                lemma_map_remove(now, c);
                lemma_sorted(now.remove(c));
                assert(now.remove(c) =~= s.take(c) + s.skip(i + 1));
            }
            if let Some(p) = self.remove(keys[i]) {
                r.push((keys[i], p));
            }
            assert(r@ =~= s.subrange(c, i + 1));
            i += 1;
        }
        proof {
            let c = cut as int;
            assert forall|j: int| 0 <= j < c implies (#[trigger] s[j]).0 < from by {
                assert(keys@[j] < from);
            }
            assert forall|j: int| c <= j < s.len() implies (#[trigger] s[j]).0 >= from by {
                if j > c {
                    assert(s[c].0 < s[j].0);
                }
                assert(keys@[c] >= from);
            }
            lemma_map_cut(s, c, from);
            assert(s.take(c) + s.skip(s.len() as int) =~= s.take(c));
            assert(r@ =~= s.skip(c));
            assert(s.take(c) + s.skip(c) =~= s);
        }
        r
    }

    /// The pages, each with its index, in the order of these.
    pub fn into_entries(self) -> (r: Vec<(u64, P)>)
        requires
            self.wf(),
        ensures
            r@ == self.entries(),
    {
        let mut all = self;
        let r = all.split_from(0);
        proof {
            let left = all.entries();
            if left.len() > 0 {
                lemma_at(left, 0);
                assert(all@.dom().contains(left[0].0));
            }
            assert(left + r@ =~= r@);
        }
        r
    }
}

impl<P> View for PageMap<P> {
    type V = Map<u64, P>;

    closed spec fn view(&self) -> Map<u64, P> {
        self.map@
    }
}

proof fn lemma_map_insert<P>(
    s: Seq<(u64, P)>,
    t: Seq<(u64, P)>,
    k: u64,
    p: P,
    i: int,
    fresh: bool,
)
    requires
        rising(s),
        0 <= i <= s.len(),
        forall|j: int| 0 <= j < i ==> (#[trigger] s[j]).0 < k,
        forall|j: int| i <= j < s.len() ==> (#[trigger] s[j]).0 >= k,
        fresh ==> t == s.insert(i, (k, p)) && (i < s.len() ==> s[i].0 != k),
        !fresh ==> i < s.len() && s[i].0 == k && t == s.update(i, (k, p)),
    ensures
        rising(t),
        as_map(t) == as_map(s).insert(k, p),
{
    let d = if fresh {
        1int
    } else {
        0
    };
    // Where an entry of `s` other than the one at `k` stands in `t`.
    assert forall|a: int, b: int| 0 <= a < b < t.len() implies (#[trigger] t[a]).0 < (
    #[trigger] t[b]).0 by {
        if fresh {
            if b < i {
                assert(t[a] == s[a] && t[b] == s[b]);
            } else if b == i {
                assert(t[a] == s[a]);
            } else {
                assert(t[b] == s[b - 1]);
                assert(s[b - 1].0 >= k);
                if i < s.len() && b - 1 > i {
                    assert(s[i].0 < s[b - 1].0);
                }
                if a < i {
                    assert(t[a] == s[a]);
                    assert(s[a].0 < s[b - 1].0);
                } else if a > i {
                    assert(t[a] == s[a - 1]);
                    assert(s[a - 1].0 < s[b - 1].0);
                }
            }
        } else {
            assert(s[a].0 < s[b].0);
        }
    }
    assert forall|x: u64| listed(t, x) <==> listed(s, x) || x == k by {
        if listed(t, x) {
            let a = choose|a: int| 0 <= a < t.len() && (#[trigger] t[a]).0 == x;
            if a < i {
                assert(t[a] == s[a]);
            } else if a > i {
                assert(t[a] == s[a - d]);
            }
        }
        if listed(s, x) {
            let a = choose|a: int| 0 <= a < s.len() && (#[trigger] s[a]).0 == x;
            if a < i {
                assert(t[a] == s[a]);
            } else if a + d > i {
                assert(t[a + d] == s[a]);
            }
        }
        assert(t[i].0 == k);
    }
    assert forall|x: u64| listed(t, x) implies #[trigger] page_at(t, x) == as_map(s).insert(k, p)[x] by {
        let a = choose|a: int| 0 <= a < t.len() && (#[trigger] t[a]).0 == x;
        lemma_at(t, a);
        if x == k {
            lemma_at(t, i);
        } else {
            if a < i {
                assert(t[a] == s[a]);
                lemma_at(s, a);
            } else {
                assert(t[a] == s[a - d]);
                lemma_at(s, a - d);
            }
        }
    }
    assert(as_map(t) =~= as_map(s).insert(k, p));
}

proof fn lemma_map_remove<P>(s: Seq<(u64, P)>, i: int)
    requires
        rising(s),
        0 <= i < s.len(),
    ensures
        rising(s.remove(i)),
        as_map(s.remove(i)) == as_map(s).remove(s[i].0),
{
    let t = s.remove(i);
    let k = s[i].0;
    assert forall|a: int| 0 <= a < t.len() implies #[trigger] t[a] == s[if a < i {
        a
    } else {
        a + 1
    }] by {}
    assert forall|a: int, b: int| 0 <= a < b < t.len() implies (#[trigger] t[a]).0 < (
    #[trigger] t[b]).0 by {
        assert(s[if a < i { a } else { a + 1 }].0 < s[if b < i { b } else { b + 1 }].0);
    }
    assert forall|x: u64| listed(t, x) <==> listed(s, x) && x != k by {
        if listed(t, x) {
            let a = choose|a: int| 0 <= a < t.len() && (#[trigger] t[a]).0 == x;
            let b = if a < i {
                a
            } else {
                a + 1
            };
            assert(s[b].0 == x);
            if x == k {
                lemma_at(s, b);
                if b < i {
                    assert(s[b].0 < s[i].0);
                } else {
                    assert(s[i].0 < s[b].0);
                }
            }
        }
        if listed(s, x) && x != k {
            let b = choose|b: int| 0 <= b < s.len() && (#[trigger] s[b]).0 == x;
            if b < i {
                assert(t[b] == s[b]);
            } else {
                assert(t[b - 1] == s[b]);
            }
        }
    }
    assert forall|x: u64| listed(t, x) implies #[trigger] page_at(t, x) == page_at(s, x) by {
        let a = choose|a: int| 0 <= a < t.len() && (#[trigger] t[a]).0 == x;
        lemma_at(t, a);
        lemma_at(
            s,
            if a < i {
                a
            } else {
                a + 1
            },
        );
    }
    assert(as_map(t) =~= as_map(s).remove(k));
}

proof fn lemma_map_cut<P>(s: Seq<(u64, P)>, i: int, from: u64)
    requires
        rising(s),
        0 <= i <= s.len(),
        forall|j: int| 0 <= j < i ==> (#[trigger] s[j]).0 < from,
        forall|j: int| i <= j < s.len() ==> (#[trigger] s[j]).0 >= from,
    ensures
        rising(s.take(i)),
        rising(s.skip(i)),
        as_map(s.take(i)) == as_map(s).restrict(
            Set::new(|k: u64| as_map(s).dom().contains(k) && k < from),
        ),
        as_map(s.skip(i)) == as_map(s).restrict(
            Set::new(|k: u64| as_map(s).dom().contains(k) && k >= from),
        ),
        s.subrange(0, i) == s.take(i),
        s.subrange(i, s.len() as int) == s.skip(i),
{
    let a = s.take(i);
    let b = s.skip(i);
    assert forall|x: int, y: int| 0 <= x < y < b.len() implies (#[trigger] b[x]).0 < (
    #[trigger] b[y]).0 by {
        assert(s[x + i].0 < s[y + i].0);
    }
    assert forall|x: u64| listed(a, x) <==> listed(s, x) && x < from by {
        if listed(a, x) {
            let j = choose|j: int| 0 <= j < a.len() && (#[trigger] a[j]).0 == x;
            assert(s[j] == a[j]);
        }
        if listed(s, x) && x < from {
            let j = choose|j: int| 0 <= j < s.len() && (#[trigger] s[j]).0 == x;
            assert(a[j] == s[j]);
        }
    }
    assert forall|x: u64| listed(b, x) <==> listed(s, x) && x >= from by {
        if listed(b, x) {
            let j = choose|j: int| 0 <= j < b.len() && (#[trigger] b[j]).0 == x;
            assert(s[j + i] == b[j]);
        }
        if listed(s, x) && x >= from {
            let j = choose|j: int| 0 <= j < s.len() && (#[trigger] s[j]).0 == x;
            assert(b[j - i] == s[j]);
        }
    }
    assert forall|x: u64| listed(a, x) implies #[trigger] page_at(a, x) == page_at(s, x) by {
        let j = choose|j: int| 0 <= j < a.len() && (#[trigger] a[j]).0 == x;
        lemma_at(a, j);
        lemma_at(s, j);
    }
    assert forall|x: u64| listed(b, x) implies #[trigger] page_at(b, x) == page_at(s, x) by {
        let j = choose|j: int| 0 <= j < b.len() && (#[trigger] b[j]).0 == x;
        lemma_at(b, j);
        lemma_at(s, j + i);
    }
    assert(as_map(a) =~= as_map(s).restrict(
        Set::new(|k: u64| as_map(s).dom().contains(k) && k < from),
    ));
    assert(as_map(b) =~= as_map(s).restrict(
        Set::new(|k: u64| as_map(s).dom().contains(k) && k >= from),
    ));
}

} // verus!
