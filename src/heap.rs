//! The bounded top-k queue's storage: a double-ended priority queue of
//! `(distance, index)` pairs, ordered as tuples (by distance, then by index).
use min_max_heap::MinMaxHeap;
use vstd::multiset::Multiset;
use vstd::prelude::*;

verus! {

#[verifier::external_type_specification]
#[verifier::external_body]
#[verifier::reject_recursive_types(T)]
pub struct ExMinMaxHeap<T>(MinMaxHeap<T>);

/// What a queue of `(distance, index)` pairs holds.
pub uninterp spec fn heap_contents(h: MinMaxHeap<(u64, usize)>) -> Multiset<(u64, usize)>;

/// The order of std's tuples: lexicographic.
pub open spec fn pair_le(a: (u64, usize), b: (u64, usize)) -> bool {
    a.0 < b.0 || (a.0 == b.0 && a.1 <= b.1)
}

/// `x` is held in `m`, and no element of `m` is above it.
pub open spec fn is_max(m: Multiset<(u64, usize)>, x: (u64, usize)) -> bool {
    m.count(x) > 0 && forall|y: (u64, usize)| m.count(y) > 0 ==> pair_le(y, x)
}

/// Relies on MinMaxHeap::new: an empty queue.
#[verifier::external_body]
pub(crate) fn heap_new() -> (h: MinMaxHeap<(u64, usize)>)
    ensures
        heap_contents(h) == Multiset::<(u64, usize)>::empty(),
{
    MinMaxHeap::new()
}

/// Relies on MinMaxHeap::len: the number of elements held.
#[verifier::external_body]
pub(crate) fn heap_len(h: &MinMaxHeap<(u64, usize)>) -> (r: usize)
    ensures
        r as nat == heap_contents(*h).len(),
{
    h.len()
}

/// Relies on MinMaxHeap::push: the element is added.
#[verifier::external_body]
pub(crate) fn heap_push(h: &mut MinMaxHeap<(u64, usize)>, e: (u64, usize))
    ensures
        heap_contents(*final(h)) == heap_contents(*old(h)).insert(e),
{
    h.push(e)
}

/// Relies on MinMaxHeap::peek_max: a greatest element, or none when empty.
#[verifier::external_body]
pub(crate) fn heap_peek_max(h: &MinMaxHeap<(u64, usize)>) -> (r: Option<(u64, usize)>)
    ensures
        r is None <==> heap_contents(*h).len() == 0,
        r matches Some(m) ==> is_max(heap_contents(*h), m),
{
    h.peek_max().copied()
}

/// Relies on MinMaxHeap::push_pop_max: the element is added and a greatest
/// element of the result is removed and handed back.
#[verifier::external_body]
pub(crate) fn heap_push_pop_max(h: &mut MinMaxHeap<(u64, usize)>, e: (u64, usize)) -> (r: (u64, usize))
    ensures
        is_max(heap_contents(*old(h)).insert(e), r),
        heap_contents(*final(h)).insert(r) == heap_contents(*old(h)).insert(e),
{
    h.push_pop_max(e)
}

/// Relies on MinMaxHeap::into_vec_asc: every element, in ascending order.
#[verifier::external_body]
pub(crate) fn heap_into_vec_asc(h: MinMaxHeap<(u64, usize)>) -> (r: Vec<(u64, usize)>)
    ensures
        r@.to_multiset() == heap_contents(h),
        forall|i: int, j: int| 0 <= i < j < r@.len() ==> pair_le(r@[i], r@[j]),
{
    h.into_vec_asc()
}

} // verus!
