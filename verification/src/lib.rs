//! A range-aggregation engine: a fixed-capacity sequence supporting
//! logarithmic point updates and logarithmic associative range queries
//! (sum, minimum, maximum) over an array-backed segment tree.

pub mod algebra;
pub mod facade;
pub mod fold;
pub mod geometry;
pub mod tree;

pub use algebra::Max;
pub use algebra::Min;
pub use algebra::Sum;
pub use algebra::TreeType;
pub use facade::PySegmentTree;
pub use facade::build_max_tree;
pub use facade::build_min_tree;
pub use facade::build_sum_tree;
pub use geometry::tree_container_indexes_manager;
pub use tree::Node;
pub use tree::Range;
pub use tree::SegmentTree;
