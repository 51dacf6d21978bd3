//! The bounded top-k queue of a query: which candidates it keeps, and the
//! answer it yields, stated as a k-nearest-neighbour relation.
use crate::heap::{
    heap_contents, heap_into_vec_asc, heap_len, heap_peek_max, heap_push, heap_push_pop_max,
    is_max, pair_le,
};
use crate::metric::Metric;
use min_max_heap::MinMaxHeap;
use vstd::multiset::Multiset;
use vstd::prelude::*;
use vstd::seq_lib::group_to_multiset_ensures;

verus! {

/// The queue entry for the item at position `j`.
pub open spec fn entry_of<T: Metric>(items: Seq<T>, target: T, j: int) -> (u64, usize) {
    (T::dist_spec(items[j], target) as u64, j as usize)
}

/// The queue holds at most `k` entries, each once, each the distance of an
/// item other than the target together with that item's position.
pub open spec fn heap_valid<T: Metric>(
    items: Seq<T>,
    target: T,
    k: int,
    h: Multiset<(u64, usize)>,
) -> bool {
    &&& h.len() <= k
    &&& forall|x: (u64, usize)| #[trigger]
        h.count(x) > 0 ==> {
            &&& (x.1 as int) < items.len()
            &&& x.0 as nat == T::dist_spec(items[x.1 as int], target)
            &&& !T::same_spec(items[x.1 as int], target)
            &&& h.count(x) == 1
        }
}

/// The item at position `j` is settled: it is the target, it is queued, or
/// the queue is full and nothing in it is farther than that item.
pub open spec fn accounted<T: Metric>(
    items: Seq<T>,
    target: T,
    k: int,
    h: Multiset<(u64, usize)>,
    j: int,
) -> bool {
    ||| T::same_spec(items[j], target)
    ||| h.count(entry_of(items, target, j)) > 0
    ||| (h.len() == k && forall|x: (u64, usize)| #[trigger]
        h.count(x) > 0 ==> x.0 as nat <= T::dist_spec(items[j], target))
}

/// `r` lists, through the positions `ix`, items of `items` other than the
/// target with their distances to it, in ascending order of distance; it
/// holds at most `k` of them, each once, and every other item that is not the
/// target is left out only because `r` already has `k` items none of which is
/// farther than it.
pub open spec fn knn_at<T: Metric>(
    items: Seq<T>,
    target: T,
    k: int,
    r: Seq<(T, u64)>,
    ix: Seq<int>,
) -> bool {
    &&& r.len() <= k
    &&& ix.len() == r.len()
    &&& ix.no_duplicates()
    &&& forall|q: int|
        0 <= q < r.len() ==> {
            &&& 0 <= #[trigger] ix[q] < items.len()
            &&& r[q].0 == items[ix[q]]
            &&& r[q].1 as nat == T::dist_spec(items[ix[q]], target)
            &&& !T::same_spec(items[ix[q]], target)
        }
    &&& forall|q1: int, q2: int| 0 <= q1 < q2 < r.len() ==> r[q1].1 <= r[q2].1
    &&& forall|j: int|
        0 <= j < items.len() && !T::same_spec(items[j], target) && !ix.contains(j) ==> {
            &&& r.len() == k
            &&& forall|q: int| 0 <= q < r.len() ==> #[trigger] r[q].1 <= T::dist_spec(items[j], target)
        }
}

/// `r` is a k-nearest-neighbour answer for `target` over `items`: the `k`
/// nearest items other than the target (fewer if there are fewer), ties at
/// the last distance broken either way, nearest first.
pub open spec fn is_knn<T: Metric>(items: Seq<T>, target: T, k: int, r: Seq<(T, u64)>) -> bool {
    exists|ix: Seq<int>| knn_at(items, target, k, r, ix)
}


/// Two k-nearest answers over the same items agree but for ties at the last
/// distance: an entry of one answer is in the other unless the other holds
/// `k` entries and that entry is no nearer than the other's last one.
pub proof fn lemma_knn_agree<T: Metric>(
    a: Seq<T>,
    b: Seq<T>,
    target: T,
    k: int,
    ra: Seq<(T, u64)>,
    rb: Seq<(T, u64)>,
)
    requires
        a.to_multiset() == b.to_multiset(),
        is_knn(a, target, k, ra),
        is_knn(b, target, k, rb),
    ensures
        forall|q: int|
            0 <= q < ra.len() && (rb.len() < k || ra[q].1 < rb[rb.len() - 1].1) ==> rb.contains(
                #[trigger] ra[q],
            ),
        forall|q: int|
            0 <= q < rb.len() && (ra.len() < k || rb[q].1 < ra[ra.len() - 1].1) ==> ra.contains(
                #[trigger] rb[q],
            ),
{
    lemma_knn_one_way(a, b, target, k, ra, rb);
    lemma_knn_one_way(b, a, target, k, rb, ra);
}

proof fn lemma_knn_one_way<T: Metric>(
    a: Seq<T>,
    b: Seq<T>,
    target: T,
    k: int,
    ra: Seq<(T, u64)>,
    rb: Seq<(T, u64)>,
)
    requires
        a.to_multiset() == b.to_multiset(),
        is_knn(a, target, k, ra),
        is_knn(b, target, k, rb),
    ensures
        forall|q: int|
            0 <= q < ra.len() && (rb.len() < k || ra[q].1 < rb[rb.len() - 1].1) ==> rb.contains(
                #[trigger] ra[q],
            ),
{
    broadcast use group_to_multiset_ensures;

    let ia = choose|ix: Seq<int>| knn_at(a, target, k, ra, ix);
    let ib = choose|ix: Seq<int>| knn_at(b, target, k, rb, ix);
    assert forall|q: int|
        0 <= q < ra.len() && (rb.len() < k || ra[q].1 < rb[rb.len() - 1].1) implies rb.contains(
        #[trigger] ra[q],
    ) by {
        let x = a[ia[q]];
        assert(a.contains(x));
        assert(b.to_multiset().count(x) > 0);
        assert(b.contains(x));
        let j = choose|j: int| 0 <= j < b.len() && b[j] == x;
        if ib.contains(j) {
            let q2 = choose|q2: int| 0 <= q2 < ib.len() && ib[q2] == j;
            assert(rb[q2] == ra[q]);
        } else {
            assert(rb[rb.len() - 1].1 <= T::dist_spec(b[j], target));
        }
    }
}

/// A greatest entry of the queue once it holds `k` entries; none before.
pub(crate) fn worst(heap: &MinMaxHeap<(u64, usize)>, k: usize) -> (r: Option<(u64, usize)>)
    requires
        k > 0,
    ensures
        r is None <==> heap_contents(*heap).len() != k,
        r matches Some(m) ==> is_max(heap_contents(*heap), m),
{
    if heap_len(heap) == k {
        heap_peek_max(heap)
    } else {
        None
    }
}

/// Offers the item at position `j`, at distance `d` from the target, to
/// the queue: it is kept if it is not the target and the queue has room
/// or holds a farther entry, which it then evicts.
pub(crate) fn offer<T: Metric>(
    items: &Vec<T>,
    heap: &mut MinMaxHeap<(u64, usize)>,
    target: &T,
    k: usize,
    j: usize,
    d: u64,
)
    requires
        k > 0,
        j < items@.len(),
        d as nat == T::dist_spec(items@[j as int], *target),
        heap_valid(items@, *target, k as int, heap_contents(*old(heap))),
        forall|x: (u64, usize)| #[trigger] heap_contents(*old(heap)).count(x) > 0 ==> x.1 != j,
    ensures
        heap_valid(items@, *target, k as int, heap_contents(*final(heap))),
        forall|x: (u64, usize)| #[trigger]
            heap_contents(*final(heap)).count(x) > 0 ==> heap_contents(*old(heap)).count(x)
                > 0 || x.1 == j,
        forall|i: int|
            0 <= i < items@.len() && accounted(
                items@,
                *target,
                k as int,
                heap_contents(*old(heap)),
                i,
            ) ==> #[trigger] accounted(
                items@,
                *target,
                k as int,
                heap_contents(*final(heap)),
                i,
            ),
        accounted(items@, *target, k as int, heap_contents(*final(heap)), j as int),
{
    broadcast use vstd::multiset::group_multiset_axioms;

    let ghost sitems = items@;
    let ghost h0 = heap_contents(*heap);
    let e = (d, j);
    assert(e == entry_of(sitems, *target, j as int));
    assert(h0.count(e) == 0);
    let w = worst(heap, k);
    let keep = match w {
        Some(m) => d <= m.0,
        None => true,
    };
    if keep && !T::same(&items[j], target) {
        if heap_len(heap) == k {
            let r = heap_push_pop_max(heap, e);
            proof {
                let m = w.unwrap();
                let h1 = heap_contents(*heap);
                assert(h1 =~= h0.insert(e).remove(r)) by {
                    assert forall|x: (u64, usize)|
                        h1.count(x) == h0.insert(e).remove(r).count(x) by {
                        assert(h1.insert(r).count(x) == h0.insert(e).count(x));
                    }
                }
                assert forall|x: (u64, usize)| #[trigger] h1.count(x) > 0 implies h0.count(x)
                    > 0 || x == e by {
                    assert(h0.insert(e).count(x) > 0);
                }
                assert forall|i: int|
                    0 <= i < sitems.len() && accounted(
                        sitems,
                        *target,
                        k as int,
                        h0,
                        i,
                    ) implies #[trigger] accounted(sitems, *target, k as int, h1, i) by {
                    let ei = entry_of(sitems, *target, i);
                    if !T::same_spec(sitems[i], *target) {
                        if h0.count(ei) > 0 && ei == r {
                            assert forall|x: (u64, usize)| #[trigger] h1.count(x) > 0 implies x.0 as nat
                                <= T::dist_spec(sitems[i], *target) by {
                                assert(h0.insert(e).count(x) > 0);
                                assert(pair_le(x, r));
                            }
                        } else if h0.count(ei) > 0 {
                            assert(h1.count(ei) > 0);
                        } else {
                            assert forall|x: (u64, usize)| #[trigger] h1.count(x) > 0 implies x.0 as nat
                                <= T::dist_spec(sitems[i], *target) by {
                                assert(h0.count(m) > 0);
                                if x != e {
                                    assert(h0.count(x) > 0);
                                }
                            }
                        }
                    }
                }
                if r == e {
                    assert forall|x: (u64, usize)| #[trigger] h1.count(x) > 0 implies x.0 as nat
                        <= T::dist_spec(sitems[j as int], *target) by {
                        assert(h0.insert(e).count(x) > 0);
                        assert(pair_le(x, r));
                    }
                } else {
                    assert(h1.count(e) > 0);
                }
            }
        } else {
            heap_push(heap, e);
        }
    } else {
        proof {
            if keep {
            } else {
                let m = w.unwrap();
                assert forall|x: (u64, usize)| #[trigger] h0.count(x) > 0 implies x.0 as nat
                    <= T::dist_spec(sitems[j as int], *target) by {
                    assert(pair_le(x, m));
                }
            }
        }
    }
}

/// Turns a queue into the answer of a query: its entries in ascending order,
/// each with its item in place of its position. Every position must be
/// settled with respect to the queue.
pub(crate) fn nearest_from_queue<T: Metric>(
    vitems: &Vec<T>,
    target: &T,
    k: usize,
    heap: MinMaxHeap<(u64, usize)>,
) -> (r: Vec<(T, u64)>)
    requires
        heap_valid(vitems@, *target, k as int, heap_contents(heap)),
        forall|j: int|
            0 <= j < vitems@.len() ==> #[trigger] accounted(
                vitems@,
                *target,
                k as int,
                heap_contents(heap),
                j,
            ),
    ensures
        r@.len() <= k,
        forall|q: int|
            0 <= q < r@.len() ==> {
                &&& vitems@.contains(#[trigger] r@[q].0)
                &&& !T::same_spec(r@[q].0, *target)
                &&& r@[q].1 as nat == T::dist_spec(r@[q].0, *target)
            },
        forall|q1: int, q2: int| 0 <= q1 < q2 < r@.len() ==> r@[q1].1 <= r@[q2].1,
        is_knn(vitems@, *target, k as int, r@),
{
    broadcast use group_to_multiset_ensures;

    let ghost items = vitems@;
    let mut result: Vec<(T, u64)> = Vec::new();
    let ghost hf = heap_contents(heap);
    let v = heap_into_vec_asc(heap);
    for q in 0..v.len()
        invariant
            items == vitems@,
            v@.to_multiset() == hf,
            heap_valid(items, *target, k as int, hf),
            result@.len() == q,
            forall|p: int|
                0 <= p < q ==> #[trigger] result@[p] == (items[v@[p].1 as int], v@[p].0),
    {
        proof {
            v@.to_multiset_ensures();
        }
        assert(v@.contains(v@[q as int]));
        assert(v@.to_multiset().count(v@[q as int]) > 0);
        let (dd, ix) = v[q];
        result.push((vitems[ix], dd));
    }
    proof {
        let ix = Seq::new(v@.len(), |q: int| v@[q].1 as int);
        v@.to_multiset_ensures();
        assert forall|q: int| 0 <= q < v@.len() implies #[trigger] hf.count(v@[q]) == 1 by {
            assert(v@.contains(v@[q]));
        }
        assert forall|x: (u64, usize)| v@.to_multiset().contains(x) implies v@.to_multiset().count(x) == 1 by {}
        v@.lemma_multiset_has_no_duplicates_conv();
        assert forall|a: int, b: int| 0 <= a < ix.len() && 0 <= b < ix.len() && a != b implies ix[a] != ix[b] by {
            assert(v@.contains(v@[a]));
            assert(v@.contains(v@[b]));
            assert(hf.count(v@[a]) > 0);
            assert(hf.count(v@[b]) > 0);
        }
        assert forall|q: int| 0 <= q < result@.len() implies {
            &&& 0 <= #[trigger] ix[q] < items.len()
            &&& result@[q].0 == items[ix[q]]
            &&& result@[q].1 as nat == T::dist_spec(items[ix[q]], *target)
            &&& !T::same_spec(items[ix[q]], *target)
        } by {
            assert(v@.contains(v@[q]));
            assert(v@.to_multiset().count(v@[q]) > 0);
            assert(result@[q] == (items[v@[q].1 as int], v@[q].0));
        }
        assert forall|q1: int, q2: int| 0 <= q1 < q2 < result@.len() implies result@[q1].1 <= result@[q2].1 by {
            assert(pair_le(v@[q1], v@[q2]));
            assert(result@[q1] == (items[v@[q1].1 as int], v@[q1].0));
            assert(result@[q2] == (items[v@[q2].1 as int], v@[q2].0));
        }
        assert forall|j: int|
            0 <= j < items.len() && !T::same_spec(items[j], *target) && !ix.contains(j) implies {
                &&& result@.len() == k
                &&& forall|q: int| 0 <= q < result@.len() ==> #[trigger] result@[q].1 <= T::dist_spec(items[j], *target)
            } by {
            assert(accounted(items, *target, k as int, hf, j));
            let ej = entry_of(items, *target, j);
            if hf.count(ej) > 0 {
                assert(v@.contains(ej));
                let q = choose|q: int| 0 <= q < v@.len() && v@[q] == ej;
                assert(j < vitems.len());
                assert(ix[q] == j);
            }
            assert forall|q: int| 0 <= q < result@.len() implies #[trigger] result@[q].1 <= T::dist_spec(items[j], *target) by {
                assert(v@.contains(v@[q]));
                assert(v@.to_multiset().count(v@[q]) > 0);
                assert(result@[q] == (items[v@[q].1 as int], v@[q].0));
            }
        }
        assert(knn_at(items, *target, k as int, result@, ix));
        assert forall|q: int| 0 <= q < result@.len() implies {
            &&& items.contains(#[trigger] result@[q].0)
            &&& !T::same_spec(result@[q].0, *target)
            &&& result@[q].1 as nat == T::dist_spec(result@[q].0, *target)
        } by {
            assert(0 <= ix[q] < items.len());
            assert(items[ix[q]] == result@[q].0);
        }
    }
    result
}

} // verus!
