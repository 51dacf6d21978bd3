//! A vantage-point tree: an index over a metric space that answers exact
//! k-nearest-neighbour queries, pruning subtrees by the triangle inequality.
pub mod heap;
pub mod metric;
pub mod sample;
pub mod topk;
pub mod vptree;
