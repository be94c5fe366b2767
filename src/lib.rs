//! Binary space partitioning of wall segments on a floor plan.
//!
//! `geometry` holds the segments and the exact plan geometry on them,
//! `tree` a binary tree node with write-once children, and `partitioning`
//! the split step and the round-by-round driver that orders segments for
//! rendering.
use vstd::prelude::*;

mod arith;
pub mod geometry;
pub mod partitioning;
pub mod settling;
pub mod tree;

pub use geometry::{Point, Seg, Side};
pub use partitioning::{front_back, non_recursive_partition, PartitionError};
pub use tree::{Direction, Node, NodeRef, TreeError};

verus! {

} // verus!
