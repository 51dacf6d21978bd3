//! The tree itself: randomized construction and the pruning k-nearest search.
use crate::heap::{heap_contents, heap_new, pair_le};
use crate::metric::Metric;
use crate::topk::{accounted, heap_valid, is_knn, knn_at, nearest_from_queue, offer, worst};
use min_max_heap::MinMaxHeap;
use rand::Rng;
use vstd::multiset::Multiset;
use vstd::prelude::*;
use vstd::seq_lib::{group_to_multiset_ensures, lemma_multiset_commutative};

verus! {

/// One pivot of the tree and the radius that splits the items below it.
pub struct Node {
    pub index: usize,
    pub radius: u64,
    pub left: Option<Box<Node>>,
    pub right: Option<Box<Node>>,
}

/// Where a range `[s, e)` of more than one item is split: the left subtree
/// takes `[s + 1, m)`, the right one `[m, e)`.
pub open spec fn split_point(s: int, e: int) -> int {
    s + (e - s) / 2
}

/// `n` is a tree over the positions `[s, e)` of `items`: each node's pivot is
/// the first position of its range, items of the left subtree lie within the
/// radius of the pivot, and items of the right subtree no nearer than it.
pub open spec fn node_wf<T: Metric>(n: Option<Box<Node>>, items: Seq<T>, s: int, e: int) -> bool
    decreases n,
{
    &&& 0 <= s <= e <= items.len()
    &&& match n {
        None => s == e,
        Some(b) => {
            &&& s < e
            &&& b.index == s
            &&& if e - s == 1 {
                b.left is None && b.right is None
            } else {
                let m = split_point(s, e);
                &&& forall|i: int|
                    s + 1 <= i < m ==> T::dist_spec(items[s], #[trigger] items[i]) <= b.radius
                &&& forall|i: int|
                    m <= i < e ==> T::dist_spec(items[s], #[trigger] items[i]) >= b.radius
                &&& node_wf(b.left, items, s + 1, m)
                &&& node_wf(b.right, items, m, e)
            }
        },
    }
}

/// A tree only reads the positions of its own range.
proof fn lemma_wf_frame<T: Metric>(n: Option<Box<Node>>, a: Seq<T>, b: Seq<T>, s: int, e: int)
    requires
        node_wf(n, a, s, e),
        e <= b.len(),
        forall|i: int| s <= i < e ==> a[i] == b[i],
    ensures
        node_wf(n, b, s, e),
    decreases n,
{
    if let Some(bx) = n {
        if e - s > 1 {
            let m = split_point(s, e);
            lemma_wf_frame(bx.left, a, b, s + 1, m);
            lemma_wf_frame(bx.right, a, b, m, e);
        }
    }
}

/// A sequence's multiset is that of its prefix, middle and suffix together.
proof fn lemma_split_multiset<T>(a: Seq<T>, lo: int, hi: int)
    requires
        0 <= lo <= hi <= a.len(),
    ensures
        a.to_multiset() == a.subrange(0, lo).to_multiset().add(
            a.subrange(lo, hi).to_multiset(),
        ).add(a.subrange(hi, a.len() as int).to_multiset()),
{
    let p = a.subrange(0, lo);
    let q = a.subrange(lo, hi);
    let r = a.subrange(hi, a.len() as int);
    assert(a =~= p + q + r);
    lemma_multiset_commutative(p + q, r);
    lemma_multiset_commutative(p, q);
}

/// Two sequences that agree outside `[lo, hi)` hold the same items exactly
/// when they hold the same items inside it.
proof fn lemma_perm_range<T>(a: Seq<T>, b: Seq<T>, lo: int, hi: int)
    requires
        0 <= lo <= hi <= a.len(),
        a.len() == b.len(),
        forall|i: int| 0 <= i < a.len() && !(lo <= i < hi) ==> a[i] == b[i],
    ensures
        a.to_multiset() == b.to_multiset() <==> a.subrange(lo, hi).to_multiset()
            == b.subrange(lo, hi).to_multiset(),
{
    lemma_split_multiset(a, lo, hi);
    lemma_split_multiset(b, lo, hi);
    assert(a.subrange(0, lo) =~= b.subrange(0, lo));
    assert(a.subrange(hi, a.len() as int) =~= b.subrange(hi, b.len() as int));
    if a.to_multiset() == b.to_multiset() {
        broadcast use vstd::multiset::group_multiset_axioms;

        let x = a.subrange(0, lo).to_multiset();
        let y = a.subrange(hi, a.len() as int).to_multiset();
        let ma = a.subrange(lo, hi).to_multiset();
        let mb = b.subrange(lo, hi).to_multiset();
        assert forall|v: T| ma.count(v) == mb.count(v) by {
            assert(x.add(ma).add(y).count(v) == x.add(mb).add(y).count(v));
        }
        assert(ma =~= mb);
    }
}

/// A property of every item in `[lo, hi)` survives a reordering of that range.
proof fn lemma_perm_forall<T>(a: Seq<T>, b: Seq<T>, lo: int, hi: int, p: spec_fn(T) -> bool)
    requires
        0 <= lo <= hi <= a.len(),
        hi <= b.len(),
        a.subrange(lo, hi).to_multiset() == b.subrange(lo, hi).to_multiset(),
        forall|i: int| lo <= i < hi ==> p(#[trigger] a[i]),
    ensures
        forall|i: int| lo <= i < hi ==> p(#[trigger] b[i]),
{
    broadcast use group_to_multiset_ensures;

    assert forall|i: int| lo <= i < hi implies p(#[trigger] b[i]) by {
        let sa = a.subrange(lo, hi);
        let sb = b.subrange(lo, hi);
        assert(sb[i - lo] == b[i]);
        assert(sb.contains(b[i]));
        assert(sa.to_multiset().count(b[i]) > 0);
        assert(sa.contains(b[i]));
        let j = choose|j: int| 0 <= j < sa.len() && sa[j] == b[i];
        assert(a[lo + j] == sa[j]);
    }
}

/// Relies on rand's thread_rng and Rng::gen_range: a position in `[lo, hi)`.
#[verifier::external_body]
pub(crate) fn random_index(lo: usize, hi: usize) -> (r: usize)
    requires
        lo < hi,
    ensures
        lo <= r < hi,
{
    rand::thread_rng().gen_range(lo..hi)
}

/// Relies on slice::select_nth_unstable_by_key, keyed by the distance to
/// `pivot`: the range `[lo, hi)` is reordered so that its element of rank
/// `nth` stands at `lo + nth`, with no greater key before it and no smaller
/// one after it.
#[verifier::external_body]
fn select_nth_by_distance<T: Metric>(
    items: &mut Vec<T>,
    lo: usize,
    hi: usize,
    nth: usize,
    pivot: &T,
)
    requires
        lo + nth < hi <= old(items)@.len(),
    ensures
        final(items)@.len() == old(items)@.len(),
        final(items)@.subrange(lo as int, hi as int).to_multiset() == old(items)@.subrange(
            lo as int,
            hi as int,
        ).to_multiset(),
        forall|i: int|
            0 <= i < old(items)@.len() && !(lo <= i < hi) ==> final(items)@[i] == old(items)@[i],
        forall|i: int|
            lo <= i < lo + nth ==> T::dist_spec(*pivot, #[trigger] final(items)@[i])
                <= T::dist_spec(*pivot, final(items)@[lo + nth]),
        forall|i: int|
            lo + nth < i < hi ==> T::dist_spec(*pivot, #[trigger] final(items)@[i])
                >= T::dist_spec(*pivot, final(items)@[lo + nth]),
{
    items[lo..hi].select_nth_unstable_by_key(nth, |x| T::distance(pivot, x));
}

/// Exchanges the items at two positions.
fn swap_items<T: Metric>(items: &mut Vec<T>, i: usize, j: usize)
    requires
        i < old(items)@.len(),
        j < old(items)@.len(),
    ensures
        final(items)@ == old(items)@.update(i as int, old(items)@[j as int]).update(
            j as int,
            old(items)@[i as int],
        ),
        final(items)@.to_multiset() == old(items)@.to_multiset(),
{
    broadcast use group_to_multiset_ensures;

    let a = items[i];
    let b = items[j];
    items.set(i, b);
    items.set(j, a);
    proof {
        let s0 = old(items)@;
        let s1 = s0.update(i as int, b);
        assert(s1.to_multiset() =~= s0.to_multiset().insert(b).remove(a));
        assert(s1.update(j as int, a).to_multiset() =~= s1.to_multiset().insert(a).remove(
            s1[j as int],
        ));
        assert(items@.to_multiset() =~= s0.to_multiset());
    }
}

/// A tree over items of `T`; the tree's own copy of the items is reordered
/// during construction, and each node's `index` is a position in that copy.
pub struct VPTree<T> {
    pub root: Option<Box<Node>>,
    pub items: Vec<T>,
}

/// Builds the tree over the positions `[start, end)`, reordering only them.
fn construct_node<T: Metric>(items: &mut Vec<T>, start: usize, end: usize) -> (r: Option<Box<Node>>)
    requires
        start <= end <= old(items)@.len(),
    ensures
        final(items)@.len() == old(items)@.len(),
        final(items)@.to_multiset() == old(items)@.to_multiset(),
        forall|i: int|
            0 <= i < old(items)@.len() && !(start <= i < end) ==> final(items)@[i]
                == old(items)@[i],
        node_wf(r, final(items)@, start as int, end as int),
    decreases end - start,
{
    if start == end {
        None
    } else if end - start > 1 {
        let i = random_index(start, end);
        swap_items(items, start, i);
        let ghost s1 = items@;
        let median = start + (end - start) / 2;
        let pivot = items[start];
        select_nth_by_distance(items, start + 1, end, median - start - 1, &pivot);
        let ghost s2 = items@;
        proof {
            lemma_perm_range(s1, s2, start + 1, end as int);
        }
        let radius = T::distance(&items[start], &items[median]);
        let left = construct_node(items, start + 1, median);
        let ghost s3 = items@;
        let right = construct_node(items, median, end);
        let ghost s4 = items@;
        proof {
            let p = s2[start as int];
            assert(s4[start as int] == p);
            lemma_perm_range(s2, s3, start + 1, median as int);
            lemma_perm_range(s3, s4, median as int, end as int);
            assert(forall|i: int| start + 1 <= i < median ==> s3[i] == s4[i]);
            lemma_perm_forall(
                s2,
                s3,
                start + 1,
                median as int,
                |x: T| T::dist_spec(p, x) <= radius,
            );
            assert forall|i: int| median <= i < end implies T::dist_spec(p, #[trigger] s2[i])
                >= radius by {
                if i > median {
                    assert(T::dist_spec(pivot, s2[i]) >= T::dist_spec(pivot, s2[median as int]));
                }
            }
            lemma_perm_forall(s3, s4, median as int, end as int, |x: T| T::dist_spec(p, x) >= radius);
            assert(forall|i: int| median <= i < end ==> s2[i] == s3[i]);
            lemma_wf_frame(left, s3, s4, start + 1, median as int);
        }
        Some(Box::new(Node { index: start, radius, left, right }))
    } else {
        Some(Box::new(Node { index: start, radius: 0, left: None, right: None }))
    }
}

impl<T: Metric> VPTree<T> {
    /// The tree covers every position of its items.
    pub open spec fn wf(&self) -> bool {
        node_wf(self.root, self.items@, 0, self.items@.len() as int)
    }

    /// Builds a tree over a copy of `items`.
    pub fn new(items: &Vec<T>) -> (r: Self)
        ensures
            r.wf(),
            r.items@.len() == items@.len(),
            r.items@.to_multiset() == items@.to_multiset(),
    {
        let n = items.len();
        let mut copy: Vec<T> = Vec::with_capacity(n);
        for i in 0..n
            invariant
                n == items@.len(),
                copy@ =~= items@.subrange(0, i as int),
        {
            copy.push(items[i]);
        }
        proof {
            assert(copy@ =~= items@);
        }
        let root = construct_node(&mut copy, 0, n);
        VPTree { root, items: copy }
    }
}

/// Whether the left subtree may hold an item nearer than the worst kept one.
fn may_reach_left(heap: &MinMaxHeap<(u64, usize)>, k: usize, d: u64, radius: u64) -> (r: bool)
    requires
        k > 0,
    ensures
        !r ==> heap_contents(*heap).len() == k && forall|x: (u64, usize)| #[trigger]
            heap_contents(*heap).count(x) > 0 ==> radius + x.0 < d,
{
    match worst(heap, k) {
        None => true,
        Some(m) => {
            proof {
                assert forall|x: (u64, usize)| #[trigger]
                    heap_contents(*heap).count(x) > 0 implies pair_le(x, m) by {}
            }
            (d as u128) <= (radius as u128) + (m.0 as u128)
        },
    }
}

/// Whether the right subtree may hold an item nearer than the worst kept one.
fn may_reach_right(heap: &MinMaxHeap<(u64, usize)>, k: usize, d: u64, radius: u64) -> (r: bool)
    requires
        k > 0,
    ensures
        !r ==> heap_contents(*heap).len() == k && forall|x: (u64, usize)| #[trigger]
            heap_contents(*heap).count(x) > 0 ==> d + x.0 < radius,
{
    match worst(heap, k) {
        None => true,
        Some(m) => {
            proof {
                assert forall|x: (u64, usize)| #[trigger]
                    heap_contents(*heap).count(x) > 0 implies pair_le(x, m) by {}
            }
            (d as u128) + (m.0 as u128) >= radius as u128
        },
    }
}

/// Items within `radius` of the pivot are no nearer to the target than
/// `d - radius`, so none beats a full queue whose entries all lie below that.
proof fn lemma_prune_inner<T: Metric>(
    items: Seq<T>,
    target: T,
    k: int,
    h: Multiset<(u64, usize)>,
    p: int,
    lo: int,
    hi: int,
    radius: u64,
    d: u64,
)
    requires
        0 <= p < items.len(),
        0 <= lo <= hi <= items.len(),
        d as nat == T::dist_spec(items[p], target),
        forall|i: int| lo <= i < hi ==> T::dist_spec(items[p], #[trigger] items[i]) <= radius,
        h.len() == k,
        forall|x: (u64, usize)| #[trigger] h.count(x) > 0 ==> radius + x.0 < d,
    ensures
        forall|i: int| lo <= i < hi ==> #[trigger] accounted(items, target, k, h, i),
{
    assert forall|i: int| lo <= i < hi implies #[trigger] accounted(items, target, k, h, i) by {
        T::lemma_metric(items[p], items[i], target);
    }
}

/// Items no nearer to the pivot than `radius` are no nearer to the target
/// than `radius - d`, so none beats a full queue whose entries all lie below it.
proof fn lemma_prune_outer<T: Metric>(
    items: Seq<T>,
    target: T,
    k: int,
    h: Multiset<(u64, usize)>,
    p: int,
    lo: int,
    hi: int,
    radius: u64,
    d: u64,
)
    requires
        0 <= p < items.len(),
        0 <= lo <= hi <= items.len(),
        d as nat == T::dist_spec(items[p], target),
        forall|i: int| lo <= i < hi ==> T::dist_spec(items[p], #[trigger] items[i]) >= radius,
        h.len() == k,
        forall|x: (u64, usize)| #[trigger] h.count(x) > 0 ==> d + x.0 < radius,
    ensures
        forall|i: int| lo <= i < hi ==> #[trigger] accounted(items, target, k, h, i),
{
    assert forall|i: int| lo <= i < hi implies #[trigger] accounted(items, target, k, h, i) by {
        T::lemma_metric(items[p], target, items[i]);
        T::lemma_metric(target, items[i], target);
    }
}

impl<T: Metric> VPTree<T> {
    /// Searches the subtree `node`, which covers the positions `[s, e)`,
    /// skipping each child that cannot hold an item nearer than the worst
    /// kept one; the child on the target's side is searched first.
    fn search_node(
        &self,
        node: &Option<Box<Node>>,
        target: &T,
        k: usize,
        heap: &mut MinMaxHeap<(u64, usize)>,
        Ghost(s): Ghost<int>,
        Ghost(e): Ghost<int>,
    )
        requires
            k > 0,
            node_wf(*node, self.items@, s, e),
            heap_valid(self.items@, *target, k as int, heap_contents(*old(heap))),
            forall|x: (u64, usize)| #[trigger]
                heap_contents(*old(heap)).count(x) > 0 ==> !(s <= x.1 < e),
        ensures
            heap_valid(self.items@, *target, k as int, heap_contents(*final(heap))),
            forall|x: (u64, usize)| #[trigger]
                heap_contents(*final(heap)).count(x) > 0 ==> heap_contents(*old(heap)).count(x)
                    > 0 || s <= x.1 < e,
            forall|i: int|
                0 <= i < self.items@.len() && accounted(
                    self.items@,
                    *target,
                    k as int,
                    heap_contents(*old(heap)),
                    i,
                ) ==> #[trigger] accounted(
                    self.items@,
                    *target,
                    k as int,
                    heap_contents(*final(heap)),
                    i,
                ),
            forall|i: int|
                s <= i < e ==> #[trigger] accounted(
                    self.items@,
                    *target,
                    k as int,
                    heap_contents(*final(heap)),
                    i,
                ),
        decreases node,
    {
        let nd = match node {
            Some(b) => b,
            None => return ,
        };
        let j = nd.index;
        let d = T::distance(&self.items[j], target);
        offer(&self.items, heap, target, k, j, d);
        if nd.left.is_none() && nd.right.is_none() {
            proof {
                if e - s > 1 {
                    assert(node_wf(nd.right, self.items@, split_point(s, e), e));
                }
                assert(e == s + 1);
            }
            return ;
        }
        let radius = nd.radius;
        let ghost m = split_point(s, e);
        let ghost items = self.items@;
        if d <= radius {
            if may_reach_left(heap, k, d, radius) {
                self.search_node(&nd.left, target, k, heap, Ghost(s + 1), Ghost(m));
            } else {
                proof {
                    lemma_prune_inner(items, *target, k as int, heap_contents(*heap), s, s + 1, m, radius, d);
                }
            }
            if may_reach_right(heap, k, d, radius) {
                self.search_node(&nd.right, target, k, heap, Ghost(m), Ghost(e));
            } else {
                proof {
                    lemma_prune_outer(items, *target, k as int, heap_contents(*heap), s, m, e, radius, d);
                }
            }
        } else {
            if may_reach_right(heap, k, d, radius) {
                self.search_node(&nd.right, target, k, heap, Ghost(m), Ghost(e));
            } else {
                proof {
                    lemma_prune_outer(items, *target, k as int, heap_contents(*heap), s, m, e, radius, d);
                }
            }
            if may_reach_left(heap, k, d, radius) {
                self.search_node(&nd.left, target, k, heap, Ghost(s + 1), Ghost(m));
            } else {
                proof {
                    lemma_prune_inner(items, *target, k as int, heap_contents(*heap), s, s + 1, m, radius, d);
                }
            }
        }
    }

    /// The `k` items nearest to `target`, leaving out any item that is the
    /// target itself, nearest first, each with its distance.
    pub fn search(&self, target: &T, k: usize) -> (r: Vec<(T, u64)>)
        requires
            self.wf(),
        ensures
            r@.len() <= k,
            forall|q: int|
                0 <= q < r@.len() ==> {
                    &&& self.items@.contains(#[trigger] r@[q].0)
                    &&& !T::same_spec(r@[q].0, *target)
                    &&& r@[q].1 as nat == T::dist_spec(r@[q].0, *target)
                },
            forall|q1: int, q2: int| 0 <= q1 < q2 < r@.len() ==> r@[q1].1 <= r@[q2].1,
            is_knn(self.items@, *target, k as int, r@),
    {
        if k == 0 {
            let result: Vec<(T, u64)> = Vec::new();
            proof {
                assert(knn_at(self.items@, *target, 0, result@, Seq::<int>::empty()));
            }
            return result;
        }
        let mut heap = heap_new();
        let n = self.items.len();
        self.search_node(&self.root, target, k, &mut heap, Ghost(0), Ghost(n as int));
        nearest_from_queue(&self.items, target, k, heap)
    }
}

} // verus!
