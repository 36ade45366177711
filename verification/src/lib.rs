//! A ball-tree spatial index over fixed-dimension integer-coordinate points.
//!
//! The index is built once from a batch of points and is immutable
//! thereafter.  It answers two query types: `k` nearest neighbours and all
//! neighbours within a radius.  Internally it partitions the points into a
//! binary tree of bounding spheres and answers queries by best-first
//! branch-and-bound search over that tree.
//!
//! Coordinates are `i32` values (a fixed-point grid), and all comparisons
//! between candidates happen in *reduced* distance units: a cheap,
//! monotonically increasing surrogate of the true distance (for the
//! Euclidean metric, the squared distance).  Working on an integer grid
//! keeps every distance computation exact, so the contracts pin the query
//! results down completely.

mod balltree;
mod batch;
mod distance;
mod errors;
mod heap;
mod partition;
mod points;
mod query;
mod tree;

pub use balltree::BallTree;
pub use balltree::BallTreeBuilder;
pub use balltree::lemma_k_nearest_all;
pub use batch::PointBatch;
pub use batch::batch_ncols;
pub use batch::batch_rows;
pub use batch::shape_ok;
pub use distance::Distance;
pub use distance::L1Dist;
pub use distance::L2Dist;
pub use distance::abs_int;
pub use distance::diffs;
pub use distance::sqrt_floor;
pub use distance::sum_abs;
pub use distance::sum_sq;
pub use errors::BuildError;
pub use errors::NnError;
pub use partition::count_on_dim_le;
pub use partition::count_on_dim_lt;
pub use partition::good_split;
pub use partition::max_on;
pub use partition::min_on;
pub use partition::partition;
pub use partition::spread_on;
pub use partition::well_split;
pub use points::all_on_dim_ge;
pub use points::all_on_dim_lt;
pub use points::coord_of;
pub use points::views_of;
pub use query::query_post;
pub use query::rd_of;
pub use tree::calc_radius;
pub use tree::centroid;
pub use tree::csum;
pub use tree::div_toward_zero;
pub use tree::zero_point;
