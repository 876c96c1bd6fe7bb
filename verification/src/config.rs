//! Default configuration values for hierarchy construction.

use vstd::prelude::*;

verus! {

/// Relative estimated cost of traversing an internal node, as the
/// binary64 bit pattern of one.
pub const DEFAULT_TRAVERSE_COST: u64 = 0x3ff0_0000_0000_0000;

/// Relative estimated cost of one primitive intersection test, as the
/// binary64 bit pattern of five quarters.
pub const DEFAULT_INTERSECT_COST: u64 = 0x3ff4_0000_0000_0000;

/// Number of buckets used when binning centroids for the surface-area
/// heuristic.
pub const DEFAULT_SAH_BUCKETS: usize = 16;

/// Leaf capacity: largest number of shapes a node may hold before the
/// builder tries to split it.
pub const DEFAULT_MAX_SHAPES_PER_NODE: usize = 4;

/// Cap on the recursion depth of hierarchy construction.
pub const DEFAULT_MAX_DEPTH: usize = 64;

} // verus!
