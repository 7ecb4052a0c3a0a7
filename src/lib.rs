//! A range-sum segment tree over a fixed index range, with point updates and
//! range queries, verified against a model of the values it holds.

pub mod sums;
pub mod tree;

pub use tree::SegmentTree;
