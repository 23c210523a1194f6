//! A splay tree of address ranges.
//!
//! Every access brings the range that holds an address, or one next to it, to the
//! root.  What the tree holds is the sequence of its ranges in order; splaying
//! changes its shape only.
use vstd::prelude::*;

verus! {

/// Something that occupies a range of addresses.
pub trait Ranged: Sized {
    /// First address.
    spec fn lo(&self) -> int;

    /// First address after the range.
    spec fn hi(&self) -> int;

    /// Addresses fit in a machine word.
    proof fn lemma_bounds(&self)
        ensures
            0 <= self.lo() <= u64::MAX,
            0 <= self.hi() <= u64::MAX,
    ;

    fn start_addr(&self) -> (r: u64)
        ensures
            r == self.lo(),
    ;

    fn end_addr(&self) -> (r: u64)
        ensures
            r == self.hi(),
    ;
}

/// A node of the tree.
pub struct Node<E> {
    pub entry: E,
    /// Largest gap known between this node and its children, or below them.
    pub max_free: u64,
    pub left: Option<Box<Node<E>>>,
    pub right: Option<Box<Node<E>>>,
}

/// A tree of ranges.
pub struct SplayTree<E> {
    pub root: Option<Box<Node<E>>>,
}

/// The entries of a tree in order.
pub open spec fn inorder<E>(t: Option<Box<Node<E>>>) -> Seq<E>
    decreases t,
{
    match t {
        None => Seq::empty(),
        Some(n) => inorder(n.left) + seq![n.entry] + inorder(n.right),
    }
}

/// Number of nodes.
pub open spec fn size<E>(t: Option<Box<Node<E>>>) -> nat
    decreases t,
{
    match t {
        None => 0,
        Some(n) => 1 + size(n.left) + size(n.right),
    }
}

/// The ranges are not empty, do not overlap and are in order.
pub open spec fn ordered<E: Ranged>(s: Seq<E>) -> bool {
    &&& forall|i: int| 0 <= i < s.len() ==> (#[trigger] s[i]).lo() < s[i].hi()
    &&& forall|i: int, j: int|
        0 <= i < j < s.len() ==> (#[trigger] s[i]).hi() <= (#[trigger] s[j]).lo()
}

/// Whether the range of `e` holds `addr`.
pub open spec fn holds<E: Ranged>(e: E, addr: int) -> bool {
    e.lo() <= addr < e.hi()
}

/// Every range ends at or below `addr`.
pub open spec fn all_below<E: Ranged>(s: Seq<E>, addr: int) -> bool {
    forall|i: int| 0 <= i < s.len() ==> (#[trigger] s[i]).hi() <= addr
}

/// Every range starts above `addr`.
pub open spec fn all_above<E: Ranged>(s: Seq<E>, addr: int) -> bool {
    forall|i: int| 0 <= i < s.len() ==> (#[trigger] s[i]).lo() > addr
}

/// The entries of nodes that hang below one another to the right.
pub open spec fn left_seq<E>(s: Seq<Box<Node<E>>>) -> Seq<E>
    decreases s.len(),
{
    if s.len() == 0 {
        Seq::empty()
    } else {
        left_seq(s.drop_last()) + (inorder(s.last().left) + seq![s.last().entry])
    }
}

/// The entries of nodes that hang below one another to the left.
pub open spec fn right_seq<E>(s: Seq<Box<Node<E>>>) -> Seq<E>
    decreases s.len(),
{
    if s.len() == 0 {
        Seq::empty()
    } else {
        (seq![s.last().entry] + inorder(s.last().right)) + right_seq(s.drop_last())
    }
}

/// The gap that a node sees: the largest of those known to its children and of
/// those between it and them.
pub open spec fn free_gap<E: Ranged>(n: Node<E>) -> int {
    let l = match n.left {
        Some(l) => {
            let gap = if n.entry.lo() > l.entry.hi() {
                n.entry.lo() - l.entry.hi()
            } else {
                0
            };
            if l.max_free > gap {
                l.max_free as int
            } else {
                gap
            }
        },
        None => 0,
    };
    let r = match n.right {
        Some(r) => {
            let gap = if r.entry.lo() > n.entry.hi() {
                r.entry.lo() - n.entry.hi()
            } else {
                0
            };
            if r.max_free > gap {
                r.max_free as int
            } else {
                gap
            }
        },
        None => 0,
    };
    if l > r {
        l
    } else {
        r
    }
}

/// Bring the known gap of a node up to date.
fn update_max_free<E: Ranged>(node: &mut Box<Node<E>>)
    ensures
        *final(node) == Box::new(Node { max_free: final(node).max_free, ..**old(node) }),
        final(node).max_free == free_gap(**old(node)),
{
    let mut max: u64 = 0;
    if let Some(l) = &node.left {
        if l.max_free > max {
            max = l.max_free;
        }
        let gap: u64 = node.entry.start_addr().saturating_sub(l.entry.end_addr());
        if gap > max {
            max = gap;
        }
    }
    if let Some(r) = &node.right {
        if r.max_free > max {
            max = r.max_free;
        }
        let gap: u64 = r.entry.start_addr().saturating_sub(node.entry.end_addr());
        if gap > max {
            max = gap;
        }
    }
    node.max_free = max;
}

/// The root of the tree knows the gap that it sees.
pub open spec fn gap_known<E: Ranged>(t: Option<Box<Node<E>>>) -> bool {
    t matches Some(n) ==> n.max_free == free_gap(*n)
}

/// Bring the known gap of a subtree's root up to date.
fn update_child<E: Ranged>(t: Option<Box<Node<E>>>) -> (r: Option<Box<Node<E>>>)
    ensures
        inorder(r) == inorder(t),
        r is Some == t is Some,
        gap_known(r),
{
    match t {
        None => None,
        Some(n) => {
            let mut n = n;
            update_max_free(&mut n);
            Some(n)
        },
    }
}

/// What splaying `t` around `addr` leaves at the root: the entry that holds `addr`
/// where there is one, else one with nothing between it and `addr`.
pub open spec fn splayed<E: Ranged>(t: Node<E>, addr: int) -> bool {
    &&& t.entry.lo() > addr ==> all_below(inorder(t.left), addr)
    &&& t.entry.hi() <= addr ==> all_above(inorder(t.right), addr)
}

/// Splay the tree below `root` around `addr`.
#[verifier::rlimit(60)]
pub fn splay<E: Ranged>(root: Box<Node<E>>, addr: u64) -> (r: Box<Node<E>>)
    requires
        ordered(inorder(Some(root))),
    ensures
        inorder(Some(r)) == inorder(Some(root)),
        splayed(*r, addr as int),
        r.max_free == free_gap(*r),
        gap_known(r.left),
        gap_known(r.right),
{
    let ghost all = inorder(Some(root));
    let mut n = root;
    let mut lefts: Vec<Box<Node<E>>> = Vec::new();
    let mut rights: Vec<Box<Node<E>>> = Vec::new();
    let mut done = false;
    assert(left_seq(lefts@) + inorder(Some(n)) + right_seq(rights@) =~= all);
    while !done
        invariant
            ordered(all),
            left_seq(lefts@) + inorder(Some(n)) + right_seq(rights@) == all,
            all_below(left_seq(lefts@), addr as int),
            all_above(right_seq(rights@), addr as int),
            forall|i: int| 0 <= i < lefts@.len() ==> (#[trigger] lefts@[i]).right is None,
            forall|i: int| 0 <= i < rights@.len() ==> (#[trigger] rights@[i]).left is None,
            done ==> splayed(*n, addr as int),
        decreases size(Some(n)), if done { 0int } else { 1 },
    {
        let ghost n0 = *n;
        let ghost ls = left_seq(lefts@);
        let ghost rs = right_seq(rights@);
        proof {
            lemma_middle(ls, inorder(Some(n)), rs, all);
            lemma_parts(n0);
            lemma_entry_nonempty(n0);
        }
        if addr < n.entry.start_addr() {
            let mut child: Option<Box<Node<E>>> = None;
            core::mem::swap(&mut child, &mut n.left);
            match child {
                None => {
                    done = true;
                },
                Some(left) => {
                    let mut left = left;
                    proof {
                        lemma_parts(*left);
                    }
                    if addr < left.entry.start_addr() {
                        // Rotate: the child comes up, this node goes below it.
                        let mut inner: Option<Box<Node<E>>> = None;
                        core::mem::swap(&mut inner, &mut left.right);
                        n.left = inner;
                        update_max_free(&mut n);
                        let ghost low = *n;
                        left.right = Some(n);
                        n = left;
                        assert(inorder(Some(n)) =~= inorder(Some(Box::new(n0)))) by {
                            lemma_parts(low);
                            lemma_parts(*n);
                        }
                        proof {
                            lemma_entry_nonempty(*n);
                        }
                        let mut next: Option<Box<Node<E>>> = None;
                        core::mem::swap(&mut next, &mut n.left);
                        match next {
                            None => {
                                done = true;
                            },
                            Some(l2) => {
                                proof {
                                    lemma_link_right(ls, n, l2, rights@, all, addr as int);
                                }
                                rights.push(n);
                                n = l2;
                            },
                        }
                    } else {
                        proof {
                            lemma_link_right(ls, n, left, rights@, all, addr as int);
                        }
                        rights.push(n);
                        n = left;
                    }
                },
            }
        } else if addr >= n.entry.end_addr() {
            let mut child: Option<Box<Node<E>>> = None;
            core::mem::swap(&mut child, &mut n.right);
            match child {
                None => {
                    done = true;
                },
                Some(right) => {
                    let mut right = right;
                    proof {
                        lemma_parts(*right);
                    }
                    if addr >= right.entry.end_addr() {
                        let mut inner: Option<Box<Node<E>>> = None;
                        core::mem::swap(&mut inner, &mut right.left);
                        n.right = inner;
                        update_max_free(&mut n);
                        let ghost low = *n;
                        right.left = Some(n);
                        n = right;
                        assert(inorder(Some(n)) =~= inorder(Some(Box::new(n0)))) by {
                            lemma_parts(low);
                            lemma_parts(*n);
                        }
                        proof {
                            lemma_entry_nonempty(*n);
                        }
                        let mut next: Option<Box<Node<E>>> = None;
                        core::mem::swap(&mut next, &mut n.right);
                        match next {
                            None => {
                                done = true;
                            },
                            Some(r2) => {
                                proof {
                                    lemma_link_left(lefts@, n, r2, rs, all, addr as int);
                                }
                                lefts.push(n);
                                n = r2;
                            },
                        }
                    } else {
                        proof {
                            lemma_link_left(lefts@, n, right, rs, all, addr as int);
                        }
                        lefts.push(n);
                        n = right;
                    }
                },
            }
        } else {
            done = true;
        }
    }
    let ghost entry = n.entry;
    let ghost ls = left_seq(lefts@);
    let ghost rs = right_seq(rights@);
    let ghost il = inorder(n.left);
    let ghost ir = inorder(n.right);
    proof {
        lemma_parts(*n);
    }
    let mut acc: Option<Box<Node<E>>> = None;
    core::mem::swap(&mut acc, &mut n.left);
    while lefts.len() > 0
        invariant
            forall|i: int| 0 <= i < lefts@.len() ==> (#[trigger] lefts@[i]).right is None,
            left_seq(lefts@) + inorder(acc) == ls + il,
        decreases lefts@.len(),
    {
        let ghost before = lefts@;
        let ghost acc0 = acc;
        if let Some(top) = lefts.pop() {
            let mut top = top;
            assert(before.last() == top);
            assert(lefts@ == before.drop_last());
            top.right = acc;
            proof {
                lemma_parts(*top);
                assert(left_seq(before) == left_seq(lefts@) + (inorder(top.left) + seq![top.entry]));
                assert(left_seq(lefts@) + inorder(Some(top)) =~= left_seq(before) + inorder(acc0));
            }
            acc = Some(top);
        }
    }
    let acc = update_child(acc);
    assert(inorder(acc) =~= ls + il);
    n.left = acc;
    let mut acc: Option<Box<Node<E>>> = None;
    core::mem::swap(&mut acc, &mut n.right);
    while rights.len() > 0
        invariant
            forall|i: int| 0 <= i < rights@.len() ==> (#[trigger] rights@[i]).left is None,
            inorder(acc) + right_seq(rights@) == ir + rs,
        decreases rights@.len(),
    {
        let ghost before = rights@;
        let ghost acc0 = acc;
        if let Some(top) = rights.pop() {
            let mut top = top;
            assert(before.last() == top);
            assert(rights@ == before.drop_last());
            top.left = acc;
            proof {
                lemma_parts(*top);
                assert(right_seq(before) == (seq![top.entry] + inorder(top.right)) + right_seq(
                    rights@,
                ));
                assert(inorder(Some(top)) + right_seq(rights@) =~= inorder(acc0) + right_seq(before));
            }
            acc = Some(top);
        }
    }
    let acc = update_child(acc);
    assert(inorder(acc) =~= ir + rs);
    n.right = acc;
    update_max_free(&mut n);
    proof {
        lemma_parts(*n);
        assert(inorder(Some(n)) =~= all);
        if entry.lo() > addr {
            assert forall|i: int| 0 <= i < (ls + il).len() implies (#[trigger] (ls + il)[i]).hi()
                <= addr by {
                if i < ls.len() {
                    assert((ls + il)[i] == ls[i]);
                } else {
                    assert((ls + il)[i] == il[i - ls.len()]);
                }
            }
        }
        if entry.hi() <= addr {
            assert forall|i: int| 0 <= i < (ir + rs).len() implies (#[trigger] (ir + rs)[i]).lo()
                > addr by {
                if i < ir.len() {
                    assert((ir + rs)[i] == ir[i]);
                } else {
                    assert((ir + rs)[i] == rs[i - ir.len()]);
                }
            }
        }
    }
    n
}

/// The entries of a node's tree, in three parts.
proof fn lemma_parts<E>(n: Node<E>)
    ensures
        inorder(Some(Box::new(n))) == inorder(n.left) + seq![n.entry] + inorder(n.right),
        size(Some(Box::new(n))) == 1 + size(n.left) + size(n.right),
{
}

/// The entry of a node of an ordered tree is not empty.
proof fn lemma_entry_nonempty<E: Ranged>(n: Node<E>)
    requires
        ordered(inorder(Some(Box::new(n)))),
    ensures
        n.entry.lo() < n.entry.hi(),
{
    lemma_parts(n);
    assert(inorder(Some(Box::new(n)))[inorder(n.left).len() as int] == n.entry);
}

/// The middle part of an ordered sequence is ordered.
proof fn lemma_middle<E: Ranged>(a: Seq<E>, b: Seq<E>, c: Seq<E>, all: Seq<E>)
    requires
        ordered(all),
        a + b + c == all,
    ensures
        ordered(b),
        forall|i: int, j: int|
            0 <= i < b.len() && 0 <= j < c.len() ==> (#[trigger] b[i]).hi() <= (#[trigger] c[j]).lo(),
        forall|i: int, j: int|
            0 <= i < a.len() && 0 <= j < b.len() ==> (#[trigger] a[i]).hi() <= (#[trigger] b[j]).lo(),
{
    let n = a.len() as int;
    assert forall|i: int| 0 <= i < b.len() implies (#[trigger] b[i]).lo() < b[i].hi() by {
        assert(all[n + i] == b[i]);
    }
    assert forall|i: int, j: int| 0 <= i < j < b.len() implies (#[trigger] b[i]).hi() <= (
    #[trigger] b[j]).lo() by {
        assert(all[n + i] == b[i] && all[n + j] == b[j]);
    }
    assert forall|i: int, j: int|
        0 <= i < b.len() && 0 <= j < c.len() implies (#[trigger] b[i]).hi() <= (#[trigger] c[j]).lo() by {
        assert(all[n + i] == b[i] && all[n + b.len() + j] == c[j]);
    }
    assert forall|i: int, j: int|
        0 <= i < a.len() && 0 <= j < b.len() implies (#[trigger] a[i]).hi() <= (#[trigger] b[j]).lo() by {
        assert(all[i] == a[i] && all[n + j] == b[j]);
    }
}

/// Setting a node whose left child was taken aside on the right.
proof fn lemma_link_right<E: Ranged>(
    ls: Seq<E>,
    n: Box<Node<E>>,
    child: Box<Node<E>>,
    rights: Seq<Box<Node<E>>>,
    all: Seq<E>,
    addr: int,
)
    requires
        ordered(all),
        n.left is None,
        ls + inorder(Some(Box::new(Node { left: Some(child), ..*n }))) + right_seq(rights) == all,
        n.entry.lo() > addr,
        all_above(right_seq(rights), addr),
    ensures
        ls + inorder(Some(child)) + right_seq(rights.push(n)) == all,
        all_above(right_seq(rights.push(n)), addr),
{
    let whole = Node { left: Some(child), ..*n };
    lemma_parts(whole);
    let b = inorder(Some(Box::new(whole)));
    lemma_middle(ls, b, right_seq(rights), all);
    assert(rights.push(n).drop_last() =~= rights);
    assert(rights.push(n).last() == n);
    let tail = seq![n.entry] + inorder(n.right);
    let now = right_seq(rights.push(n));
    assert(now == tail + right_seq(rights));
    assert(ls + inorder(Some(child)) + now =~= ls + b + right_seq(rights));
    let k = inorder(Some(child)).len() as int;
    assert(b[k] == n.entry);
    assert forall|i: int| 0 <= i < now.len() implies (#[trigger] now[i]).lo() > addr by {
        if i < tail.len() {
            assert(now[i] == tail[i]);
            assert(tail[i] == b[k + i]);
            if i > 0 {
                assert(b[k].hi() <= b[k + i].lo());
            }
        } else {
            assert(now[i] == right_seq(rights)[i - tail.len()]);
        }
    }
}

/// Setting a node whose right child was taken aside on the left.
proof fn lemma_link_left<E: Ranged>(
    lefts: Seq<Box<Node<E>>>,
    n: Box<Node<E>>,
    child: Box<Node<E>>,
    rs: Seq<E>,
    all: Seq<E>,
    addr: int,
)
    requires
        ordered(all),
        n.right is None,
        left_seq(lefts) + inorder(Some(Box::new(Node { right: Some(child), ..*n }))) + rs == all,
        n.entry.hi() <= addr,
        all_below(left_seq(lefts), addr),
    ensures
        left_seq(lefts.push(n)) + inorder(Some(child)) + rs == all,
        all_below(left_seq(lefts.push(n)), addr),
{
    let whole = Node { right: Some(child), ..*n };
    lemma_parts(whole);
    let b = inorder(Some(Box::new(whole)));
    lemma_middle(left_seq(lefts), b, rs, all);
    assert(lefts.push(n).drop_last() =~= lefts);
    assert(lefts.push(n).last() == n);
    let head = inorder(n.left) + seq![n.entry];
    let now = left_seq(lefts.push(n));
    assert(now == left_seq(lefts) + head);
    assert(now + inorder(Some(child)) + rs =~= left_seq(lefts) + b + rs);
    let k = inorder(n.left).len() as int;
    assert(b[k] == n.entry);
    assert forall|i: int| 0 <= i < now.len() implies (#[trigger] now[i]).hi() <= addr by {
        let m = left_seq(lefts).len() as int;
        if i < m {
            assert(now[i] == left_seq(lefts)[i]);
        } else {
            assert(now[i] == head[i - m]);
            assert(head[i - m] == b[i - m]);
            if i - m < k {
                assert(b[i - m].hi() <= b[k].lo());
            }
        }
    }
}

/// A node with nothing below it.
fn leaf<E>(entry: E) -> (r: Box<Node<E>>)
    ensures
        *r == (Node { entry, max_free: r.max_free, left: None, right: None }),
{
    Box::new(Node { entry, max_free: 0, left: None, right: None })
}

/// The place at which `addr` belongs: the number of ranges that start at or below
/// it.
pub open spec fn rank<E: Ranged>(s: Seq<E>, addr: int) -> int
    decreases s.len(),
{
    if s.len() == 0 {
        0
    } else if s.last().lo() <= addr {
        s.len() as int
    } else {
        rank(s.drop_last(), addr)
    }
}

/// Whether some range holds `addr`, and which.
pub open spec fn found<E: Ranged>(s: Seq<E>, addr: int, i: int) -> bool {
    0 <= i < s.len() && holds(s[i], addr)
}

/// In an ordered sequence, ranges before the rank start at or below the address
/// and those from it on start above.
pub proof fn lemma_rank<E: Ranged>(s: Seq<E>, addr: int)
    requires
        ordered(s),
    ensures
        0 <= rank(s, addr) <= s.len(),
        forall|i: int| 0 <= i < rank(s, addr) ==> (#[trigger] s[i]).lo() <= addr,
        forall|i: int| rank(s, addr) <= i < s.len() ==> (#[trigger] s[i]).lo() > addr,
    decreases s.len(),
{
    if s.len() > 0 {
        let n = s.len() - 1;
        if s.last().lo() <= addr {
            assert forall|i: int| 0 <= i < s.len() implies (#[trigger] s[i]).lo() <= addr by {
                if i < n {
                    assert(s[i].hi() <= s[n].lo());
                }
            }
        } else {
            let t = s.drop_last();
            assert forall|i: int, j: int| 0 <= i < j < t.len() implies (#[trigger] t[i]).hi() <= (
            #[trigger] t[j]).lo() by {
                assert(s[i].hi() <= s[j].lo());
            }
            assert forall|i: int| 0 <= i < t.len() implies (#[trigger] t[i]).lo() < t[i].hi() by {
                assert(s[i].lo() < s[i].hi());
            }
            lemma_rank(t, addr);
            let r = rank(t, addr);
            assert forall|i: int| 0 <= i < r implies (#[trigger] s[i]).lo() <= addr by {
                assert(t[i] == s[i]);
            }
            assert forall|i: int| r <= i < s.len() implies (#[trigger] s[i]).lo() > addr by {
                if i < n {
                    assert(t[i] == s[i]);
                }
            }
        }
    }
}

/// A range that overlaps none of an ordered sequence can be put in at its rank.
pub proof fn lemma_insert_ordered<E: Ranged>(s: Seq<E>, e: E)
    requires
        ordered(s),
        e.lo() < e.hi(),
        forall|i: int| 0 <= i < s.len() ==> (#[trigger] s[i]).hi() <= e.lo() || e.hi() <= s[i].lo(),
    ensures
        0 <= rank(s, e.lo()) <= s.len(),
        ordered(s.insert(rank(s, e.lo()), e)),
        forall|i: int| 0 <= i < rank(s, e.lo()) ==> (#[trigger] s[i]).hi() <= e.lo(),
        forall|i: int| rank(s, e.lo()) <= i < s.len() ==> e.hi() <= (#[trigger] s[i]).lo(),
{
    lemma_rank(s, e.lo());
    let r = rank(s, e.lo());
    let t = s.insert(r, e);
    assert forall|i: int| 0 <= i < r implies (#[trigger] s[i]).hi() <= e.lo() by {
        assert(s[i].lo() <= e.lo());
    }
    assert forall|i: int| r <= i < s.len() implies e.hi() <= (#[trigger] s[i]).lo() by {
        assert(s[i].lo() > e.lo());
        assert(s[i].lo() < s[i].hi());
    }
    assert forall|i: int| 0 <= i < t.len() implies (#[trigger] t[i]).lo() < t[i].hi() by {
        if i < r {
            assert(t[i] == s[i]);
        } else if i > r {
            assert(t[i] == s[i - 1]);
        }
    }
    assert forall|i: int, j: int| 0 <= i < j < t.len() implies (#[trigger] t[i]).hi() <= (
    #[trigger] t[j]).lo() by {
        if j < r {
            assert(t[i] == s[i] && t[j] == s[j]);
        } else if j == r {
            assert(t[i] == s[i]);
        } else {
            assert(t[j] == s[j - 1]);
            if i < r {
                assert(t[i] == s[i]);
                assert(s[i].hi() <= s[j - 1].lo());
            } else if i > r {
                assert(t[i] == s[i - 1]);
                assert(s[i - 1].hi() <= s[j - 1].lo());
            }
        }
    }
}

/// At most one range of an ordered sequence holds an address.
pub proof fn lemma_found_unique<E: Ranged>(s: Seq<E>, addr: int, i: int, j: int)
    requires
        ordered(s),
        found(s, addr, i),
        found(s, addr, j),
    ensures
        i == j,
{
    if i < j {
        assert(s[i].hi() <= s[j].lo());
    }
    if j < i {
        assert(s[j].hi() <= s[i].lo());
    }
}

/// Taking one range out keeps an ordered sequence ordered.
pub proof fn lemma_remove_ordered<E: Ranged>(s: Seq<E>, i: int)
    requires
        ordered(s),
        0 <= i < s.len(),
    ensures
        ordered(s.remove(i)),
{
    let t = s.remove(i);
    assert forall|a: int| 0 <= a < t.len() implies (#[trigger] t[a]).lo() < t[a].hi() by {
        let x = if a < i {
            a
        } else {
            a + 1
        };
        assert(t[a] == s[x]);
    }
    assert forall|a: int, b: int| 0 <= a < b < t.len() implies (#[trigger] t[a]).hi() <= (
    #[trigger] t[b]).lo() by {
        let x = if a < i {
            a
        } else {
            a + 1
        };
        let y = if b < i {
            b
        } else {
            b + 1
        };
        assert(t[a] == s[x] && t[b] == s[y]);
    }
}

/// Where the root of a splayed tree stands: it holds the address if anything does.
proof fn lemma_root_found<E: Ranged>(n: Node<E>, addr: int)
    requires
        ordered(inorder(Some(Box::new(n)))),
        splayed(n, addr),
    ensures
        ({
            let s = inorder(Some(Box::new(n)));
            let k = inorder(n.left).len() as int;
            &&& s[k] == n.entry
            &&& 0 <= k < s.len()
            &&& holds(n.entry, addr) ==> found(s, addr, k)
            &&& !holds(n.entry, addr) ==> forall|i: int| !#[trigger] found(s, addr, i)
        }),
{
    lemma_parts(n);
    let s = inorder(Some(Box::new(n)));
    let l = inorder(n.left);
    let r = inorder(n.right);
    let k = l.len() as int;
    assert(s[k] == n.entry);
    if !holds(n.entry, addr) {
        assert forall|i: int| !#[trigger] found(s, addr, i) by {
            if found(s, addr, i) {
                if i < k {
                    assert(s[i] == l[i]);
                    assert(s[i].hi() <= s[k].lo());
                } else if i > k {
                    assert(s[i] == r[i - k - 1]);
                    assert(s[k].hi() <= s[i].lo());
                }
            }
        }
    }
}

impl<E: Ranged> SplayTree<E> {
    /// The ranges in order.
    pub open spec fn entries(&self) -> Seq<E> {
        inorder(self.root)
    }

    pub open spec fn wf(&self) -> bool {
        ordered(self.entries())
    }

    pub fn new() -> (r: Self)
        ensures
            r.wf(),
            r.entries().len() == 0,
    {
        SplayTree { root: None }
    }

    pub fn is_empty(&self) -> (r: bool)
        ensures
            r == (self.entries().len() == 0),
    {
        match &self.root {
            None => true,
            Some(n) => {
                proof {
                    lemma_parts(**n);
                }
                false
            },
        }
    }

    /// Bring the range that holds `addr`, or one next to it, to the root.
    fn splay_to(&mut self, addr: u64)
        requires
            old(self).wf(),
        ensures
            final(self).wf(),
            final(self).entries() == old(self).entries(),
            final(self).root is Some == old(self).root is Some,
            final(self).root matches Some(n) ==> splayed(*n, addr as int) && gap_known(n.left)
                && gap_known(n.right),
            gap_known(final(self).root),
    {
        let mut root: Option<Box<Node<E>>> = None;
        core::mem::swap(&mut root, &mut self.root);
        if let Some(n) = root {
            self.root = Some(splay(n, addr));
        }
    }

    /// Put in a range that overlaps none that is there.
    pub fn insert(&mut self, entry: E)
        requires
            old(self).wf(),
            entry.lo() < entry.hi(),
            forall|i: int|
                0 <= i < old(self).entries().len() ==> (#[trigger] old(self).entries()[i]).hi()
                    <= entry.lo() || entry.hi() <= old(self).entries()[i].lo(),
        ensures
            final(self).wf(),
            gap_known(final(self).root),
            final(self).entries() == old(self).entries().insert(
                rank(old(self).entries(), entry.lo()),
                entry,
            ),
    {
        let addr = entry.start_addr();
        let ghost s = self.entries();
        proof {
            lemma_insert_ordered(s, entry);
        }
        self.splay_to(addr);
        let mut top: Option<Box<Node<E>>> = None;
        core::mem::swap(&mut top, &mut self.root);
        match top {
            None => {
                let mut node = leaf(entry);
                update_max_free(&mut node);
                proof {
                    lemma_parts(*node);
                    assert(s =~= Seq::empty());
                    assert(inorder(Some(node)) =~= s.insert(0, entry));
                }
                self.root = Some(node);
            },
            Some(root) => {
                let mut root = root;
                let mut node = leaf(entry);
                let ghost l = inorder(root.left);
                let ghost r = inorder(root.right);
                let ghost k = l.len() as int;
                proof {
                    lemma_parts(*root);
                    assert(s[k] == root.entry);
                    lemma_rank(s, addr as int);
                }
                if addr < root.entry.start_addr() {
                    let mut below: Option<Box<Node<E>>> = None;
                    core::mem::swap(&mut below, &mut root.left);
                    update_max_free(&mut root);
                    proof {
                        lemma_parts(*root);
                        assert(rank(s, entry.lo()) == k) by {
                            if rank(s, entry.lo()) < k {
                                let i = rank(s, entry.lo());
                                assert(s[i] == l[i]);
                                assert(s[i].lo() > addr);
                                assert(s[i].lo() < s[i].hi());
                            }
                        }
                    }
                    node.left = below;
                    node.right = Some(root);
                    update_max_free(&mut node);
                    proof {
                        lemma_parts(*node);
                        assert(inorder(Some(node)) =~= s.insert(k, entry));
                    }
                } else {
                    let mut below: Option<Box<Node<E>>> = None;
                    core::mem::swap(&mut below, &mut root.right);
                    update_max_free(&mut root);
                    proof {
                        lemma_parts(*root);
                        assert(rank(s, entry.lo()) == k + 1) by {
                            assert(s[k].lo() <= addr);
                            assert(s[k].hi() <= entry.lo());
                            if rank(s, entry.lo()) > k + 1 {
                                assert(s[k + 1] == r[0]);
                                assert(s[k + 1].lo() > addr);
                            }
                        }
                    }
                    node.right = below;
                    node.left = Some(root);
                    update_max_free(&mut node);
                    proof {
                        lemma_parts(*node);
                        assert(inorder(Some(node)) =~= s.insert(k + 1, entry));
                    }
                }
                self.root = Some(node);
            },
        }
    }

    /// The range that holds `addr`.
    pub fn lookup(&mut self, addr: u64) -> (r: Option<&E>)
        requires
            old(self).wf(),
        ensures
            final(self).wf(),
            gap_known(final(self).root),
            final(self).entries() == old(self).entries(),
            match r {
                Some(e) => exists|i: int| #[trigger]
                    found(old(self).entries(), addr as int, i) && *e == old(self).entries()[i],
                None => forall|i: int| !#[trigger] found(old(self).entries(), addr as int, i),
            },
    {
        self.splay_to(addr);
        match &self.root {
            None => None,
            Some(n) => {
                proof {
                    lemma_root_found(**n, addr as int);
                }
                if addr >= n.entry.start_addr() && addr < n.entry.end_addr() {
                    Some(&n.entry)
                } else {
                    None
                }
            },
        }
    }

    /// The range that holds `addr`, without reshaping the tree.
    pub fn lookup_readonly(&self, addr: u64) -> (r: Option<&E>)
        requires
            self.wf(),
        ensures
            match r {
                Some(e) => exists|i: int| #[trigger]
                    found(self.entries(), addr as int, i) && *e == self.entries()[i],
                None => forall|i: int| !#[trigger] found(self.entries(), addr as int, i),
            },
    {
        let ghost s = self.entries();
        let mut curr: &Option<Box<Node<E>>> = &self.root;
        let ghost mut off: int = 0;
        loop
            invariant
                s == self.entries(),
                ordered(s),
                0 <= off,
                off + inorder(*curr).len() <= s.len(),
                forall|i: int|
                    0 <= i < inorder(*curr).len() ==> #[trigger] inorder(*curr)[i] == s[off + i],
                forall|i: int| #[trigger]
                    found(s, addr as int, i) ==> off <= i < off + inorder(*curr).len(),
            decreases *curr,
        {
            match curr {
                None => {
                    return None;
                },
                Some(n) => {
                    let ghost l = inorder(n.left);
                    let ghost here = inorder(*curr);
                    proof {
                        lemma_parts(**n);
                        assert(here[l.len() as int] == n.entry);
                        assert(s[off + l.len()] == n.entry);
                    }
                    if addr >= n.entry.start_addr() && addr < n.entry.end_addr() {
                        assert(found(s, addr as int, off + l.len()));
                        return Some(&n.entry);
                    } else if addr < n.entry.start_addr() {
                        proof {
                            assert forall|i: int| #[trigger] found(s, addr as int, i) implies off <= i
                                < off + l.len() by {
                                if i > off + l.len() {
                                    assert(s[off + l.len()].hi() <= s[i].lo());
                                    assert(s[off + l.len()].lo() < s[off + l.len()].hi());
                                }
                            }
                            assert forall|i: int| 0 <= i < l.len() implies #[trigger] l[i] == s[off
                                + i] by {
                                assert(here[i] == l[i]);
                            }
                        }
                        curr = &n.left;
                    } else {
                        let ghost r = inorder(n.right);
                        proof {
                            assert forall|i: int| #[trigger] found(s, addr as int, i) implies off
                                + l.len() + 1 <= i by {
                                if i < off + l.len() {
                                    assert(s[i].hi() <= s[off + l.len()].lo());
                                    assert(s[off + l.len()].lo() < s[off + l.len()].hi());
                                }
                            }
                            assert forall|i: int| 0 <= i < r.len() implies #[trigger] r[i] == s[off
                                + l.len() + 1 + i] by {
                                assert(here[l.len() + 1 + i] == r[i]);
                            }
                            off = off + l.len() + 1;
                        }
                        curr = &n.right;
                    }
                },
            }
        }
    }

    /// Replace the range that holds `addr` by one in the same place.  Where none
    /// holds it, `entry` is handed back.
    pub fn replace(&mut self, addr: u64, entry: E) -> (r: Result<E, E>)
        requires
            old(self).wf(),
            forall|i: int| #[trigger]
                found(old(self).entries(), addr as int, i) ==> ordered(
                    old(self).entries().update(i, entry),
                ),
        ensures
            final(self).wf(),
            match r {
                Ok(e) => exists|i: int| #[trigger]
                    found(old(self).entries(), addr as int, i) && e == old(self).entries()[i]
                        && final(self).entries() == old(self).entries().update(i, entry),
                Err(e) => e == entry && final(self).entries() == old(self).entries() && forall|
                    i: int,
                | !#[trigger] found(old(self).entries(), addr as int, i),
            },
    {
        self.splay_to(addr);
        let mut top: Option<Box<Node<E>>> = None;
        core::mem::swap(&mut top, &mut self.root);
        match top {
            None => Err(entry),
            Some(root) => {
                let mut root = root;
                let ghost n0 = *root;
                proof {
                    lemma_root_found(*root, addr as int);
                    lemma_parts(*root);
                }
                if addr >= root.entry.start_addr() && addr < root.entry.end_addr() {
                    let mut out = entry;
                    core::mem::swap(&mut out, &mut root.entry);
                    proof {
                        let k = inorder(n0.left).len() as int;
                        lemma_parts(*root);
                        assert(inorder(Some(root)) =~= old(self).entries().update(k, entry));
                        assert(found(old(self).entries(), addr as int, k));
                    }
                    self.root = Some(root);
                    Ok(out)
                } else {
                    self.root = Some(root);
                    Err(entry)
                }
            },
        }
    }

    /// Take out the range that holds `addr`.
    pub fn remove(&mut self, addr: u64) -> (r: Option<E>)
        requires
            old(self).wf(),
        ensures
            final(self).wf(),
            gap_known(final(self).root),
            match r {
                Some(e) => exists|i: int| #[trigger]
                    found(old(self).entries(), addr as int, i) && e == old(self).entries()[i]
                        && final(self).entries() == old(self).entries().remove(i),
                None => final(self).entries() == old(self).entries() && forall|i: int| !#[trigger]
                    found(old(self).entries(), addr as int, i),
            },
    {
        let ghost s = self.entries();
        self.splay_to(addr);
        let mut top: Option<Box<Node<E>>> = None;
        core::mem::swap(&mut top, &mut self.root);
        match top {
            None => None,
            Some(root) => {
                proof {
                    lemma_root_found(*root, addr as int);
                    lemma_parts(*root);
                }
                if addr >= root.entry.start_addr() && addr < root.entry.end_addr() {
                    let node = *root;
                    let ghost k = inorder(node.left).len() as int;
                    let ghost l = inorder(node.left);
                    let ghost r = inorder(node.right);
                    proof {
                        lemma_remove_ordered(s, k);
                        assert(l + r =~= s.remove(k));
                        assert(found(s, addr as int, k));
                        assert(Seq::<E>::empty() + l + (seq![node.entry] + r) =~= s);
                        lemma_middle(Seq::empty(), l, seq![node.entry] + r, s);
                        assert(l =~= s.take(k));
                    }
                    match node.left {
                        None => {
                            assert(l + r =~= r);
                            self.root = node.right;
                        },
                        Some(low) => {
                            let mut new_root = splay(low, u64::MAX);
                            // Nothing is to the right of the last range.
                            proof {
                                lemma_parts(*new_root);
                                lemma_last_at_root(*new_root);
                            }
                            new_root.right = node.right;
                            update_max_free(&mut new_root);
                            proof {
                                lemma_parts(*new_root);
                                assert(inorder(Some(new_root)) =~= l + r);
                            }
                            self.root = Some(new_root);
                        },
                    }
                    Some(node.entry)
                } else {
                    self.root = Some(root);
                    None
                }
            },
        }
    }
}

/// A walk through a tree in order.
pub struct SplayTreeIter<'a, E> {
    stack: Vec<&'a Node<E>>,
}

/// The entries still to come: those of the nodes on the stack, the top first, each
/// with what is to its right.
pub open spec fn pending<E>(s: Seq<&Node<E>>) -> Seq<E>
    decreases s.len(),
{
    if s.len() == 0 {
        Seq::empty()
    } else {
        (seq![s.last().entry] + inorder(s.last().right)) + pending(s.drop_last())
    }
}

impl<'a, E> SplayTreeIter<'a, E> {
    /// The entries still to come.
    pub closed spec fn remaining(&self) -> Seq<E> {
        pending(self.stack@)
    }

    /// Go down to the left, keeping the nodes passed.
    fn descend(&mut self, from: &'a Option<Box<Node<E>>>)
        ensures
            final(self).remaining() == inorder(*from) + old(self).remaining(),
    {
        let mut curr = from;
        let ghost goal = inorder(*from) + self.remaining();
        loop
            invariant
                inorder(*curr) + self.remaining() == goal,
                goal == inorder(*from) + old(self).remaining(),
            decreases *curr,
        {
            match curr {
                None => {
                    assert(inorder(*curr) + self.remaining() =~= self.remaining());
                    return ;
                },
                Some(n) => {
                    let ghost before = self.stack@;
                    self.stack.push(&**n);
                    proof {
                        lemma_parts(**n);
                        assert(self.stack@.drop_last() =~= before);
                        assert(inorder(n.left) + self.remaining() =~= goal);
                    }
                    curr = &n.left;
                },
            }
        }
    }

    /// The next entry.
    pub fn next(&mut self) -> (r: Option<&'a E>)
        ensures
            match r {
                None => old(self).remaining().len() == 0 && final(self).remaining().len() == 0,
                Some(e) => {
                    &&& old(self).remaining().len() > 0
                    &&& *e == old(self).remaining()[0]
                    &&& final(self).remaining() == old(self).remaining().drop_first()
                },
            },
    {
        let ghost before = self.stack@;
        match self.stack.pop() {
            None => None,
            Some(n) => {
                assert(self.stack@ == before.drop_last());
                self.descend(&n.right);
                assert(self.remaining() =~= old(self).remaining().drop_first());
                Some(&n.entry)
            },
        }
    }
}

impl<E: Ranged> SplayTree<E> {
    /// Walk through the ranges in order.
    pub fn iter(&self) -> (r: SplayTreeIter<'_, E>)
        ensures
            r.remaining() == self.entries(),
    {
        let mut it = SplayTreeIter { stack: Vec::new() };
        it.descend(&self.root);
        assert(self.entries() + Seq::<E>::empty() =~= self.entries());
        it
    }

    /// All ranges in order.
    pub fn to_vec(&self) -> (r: Vec<&E>)
        ensures
            r@.len() == self.entries().len(),
            forall|i: int| 0 <= i < r@.len() ==> *(#[trigger] r@[i]) == self.entries()[i],
    {
        let mut it = self.iter();
        let mut r: Vec<&E> = Vec::new();
        let ghost all = self.entries();
        let mut more = true;
        while more
            invariant
                r@.len() + it.remaining().len() == all.len(),
                it.remaining() == all.skip(r@.len() as int),
                forall|i: int| 0 <= i < r@.len() ==> *(#[trigger] r@[i]) == all[i],
                !more ==> it.remaining().len() == 0,
            decreases it.remaining().len() + if more { 1int } else { 0 },
        {
            let ghost n = r@.len() as int;
            match it.next() {
                Some(e) => {
                    r.push(e);
                    assert(it.remaining() =~= all.skip(n + 1));
                },
                None => {
                    more = false;
                },
            }
        }
        r
    }
}

/// Splaying never changes what a tree holds: looking an address up twice gives the
/// same range.
pub proof fn law_lookup_is_stable<E: Ranged>(s: Seq<E>, addr: int, i: int, j: int)
    requires
        ordered(s),
        found(s, addr, i),
        found(s, addr, j),
    ensures
        s[i] == s[j],
{
    lemma_found_unique(s, addr, i, j);
}

/// Splaying around the last address leaves nothing to the right of the root.
proof fn lemma_last_at_root<E: Ranged>(n: Node<E>)
    requires
        splayed(n, u64::MAX as int),
    ensures
        inorder(n.right) == Seq::<E>::empty(),
{
    n.entry.lemma_bounds();
    let right = inorder(n.right);
    if right.len() > 0 {
        right[0].lemma_bounds();
        assert(right[0].lo() > u64::MAX);
    }
    assert(right =~= Seq::empty());
}

} // verus!
