use vstd::prelude::*;

verus! {

/// An item type with a metric on it, and the equality that a query uses to
/// leave itself out of its own result.
pub trait Metric: Copy + Sized {
    /// The distance between two items.
    spec fn dist_spec(a: Self, b: Self) -> nat;

    /// Whether two items are the same item.
    spec fn same_spec(a: Self, b: Self) -> bool;

    fn distance(a: &Self, b: &Self) -> (r: u64)
        ensures
            r as nat == Self::dist_spec(*a, *b),
    ;

    fn same(a: &Self, b: &Self) -> (r: bool)
        ensures
            r == Self::same_spec(*a, *b),
    ;

    /// The distance is symmetric and meets the triangle inequality.
    proof fn lemma_metric(a: Self, b: Self, c: Self)
        ensures
            Self::dist_spec(a, b) == Self::dist_spec(b, a),
            Self::dist_spec(a, c) <= Self::dist_spec(a, b) + Self::dist_spec(b, c),
    ;
}

} // verus!
