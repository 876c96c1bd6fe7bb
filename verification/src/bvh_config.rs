//! Configuration for constructing a bounding volume hierarchy.

use vstd::prelude::*;

use crate::config::{
    DEFAULT_INTERSECT_COST, DEFAULT_MAX_DEPTH, DEFAULT_MAX_SHAPES_PER_NODE, DEFAULT_SAH_BUCKETS,
    DEFAULT_TRAVERSE_COST,
};
use crate::errors::{BvhConfigError, GeodesicError};
use crate::fp_bits::f64_gt;

verus! {

/// Configuration for constructing a bounding volume hierarchy.
///
/// The two costs are binary64 bit patterns; they take part in the
/// surface-area heuristic evaluated by the caller, and validation here
/// demands only that each is positive.
#[derive(Debug, Clone, Copy, PartialEq, Eq, Structural)]
pub struct BvhConfig {
    /// Cost of traversing an internal node (binary64 bit pattern).
    pub traverse_cost: u64,
    /// Cost of one primitive intersection test (binary64 bit pattern).
    pub intersect_cost: u64,
    /// Number of buckets used when binning centroids.
    pub sah_buckets: usize,
    /// Largest number of shapes a node may hold before a split is tried.
    pub max_shapes_per_node: usize,
    /// Cap on the recursion depth of construction.
    pub max_depth: usize,
}

impl BvhConfig {
    /// Validate and construct a configuration.
    ///
    /// Fails exactly when a cost does not compare strictly greater than
    /// zero (a NaN cost is rejected too), the bucket count is zero, the
    /// leaf capacity is two or less, or the depth cap is zero; the
    /// checks are made in that order.
    pub fn new(
        traverse_cost: u64,
        intersect_cost: u64,
        sah_buckets: usize,
        max_shapes_per_node: usize,
        max_depth: usize,
    ) -> (r: Result<BvhConfig, GeodesicError>)
        ensures
            r == if !f64_gt(traverse_cost, 0) {
                Err::<BvhConfig, GeodesicError>(
                    GeodesicError::InvalidConfiguration(
                        BvhConfigError::InvalidTraverseCost { cost: traverse_cost },
                    ),
                )
            } else if !f64_gt(intersect_cost, 0) {
                Err::<BvhConfig, GeodesicError>(
                    GeodesicError::InvalidConfiguration(
                        BvhConfigError::InvalidIntersectCost { cost: intersect_cost },
                    ),
                )
            } else if sah_buckets == 0 {
                Err::<BvhConfig, GeodesicError>(
                    GeodesicError::InvalidConfiguration(
                        BvhConfigError::InvalidSahBuckets { buckets: sah_buckets },
                    ),
                )
            } else if max_shapes_per_node <= 2 {
                Err::<BvhConfig, GeodesicError>(
                    GeodesicError::InvalidConfiguration(
                        BvhConfigError::InvalidMaxShapesPerNode { count: max_shapes_per_node },
                    ),
                )
            } else if max_depth == 0 {
                Err::<BvhConfig, GeodesicError>(
                    GeodesicError::InvalidConfiguration(
                        BvhConfigError::InvalidMaxDepth { depth: max_depth },
                    ),
                )
            } else {
                Ok::<BvhConfig, GeodesicError>(
                    BvhConfig {
                        traverse_cost,
                        intersect_cost,
                        sah_buckets,
                        max_shapes_per_node,
                        max_depth,
                    },
                )
            },
    {
        if !crate::fp_bits::gt(traverse_cost, 0) {
            return Err(
                GeodesicError::InvalidConfiguration(
                    BvhConfigError::InvalidTraverseCost { cost: traverse_cost },
                ),
            );
        }
        if !crate::fp_bits::gt(intersect_cost, 0) {
            return Err(
                GeodesicError::InvalidConfiguration(
                    BvhConfigError::InvalidIntersectCost { cost: intersect_cost },
                ),
            );
        }
        if sah_buckets == 0 {
            return Err(
                GeodesicError::InvalidConfiguration(
                    BvhConfigError::InvalidSahBuckets { buckets: sah_buckets },
                ),
            );
        }
        if max_shapes_per_node <= 2 {
            return Err(
                GeodesicError::InvalidConfiguration(
                    BvhConfigError::InvalidMaxShapesPerNode { count: max_shapes_per_node },
                ),
            );
        }
        if max_depth == 0 {
            return Err(
                GeodesicError::InvalidConfiguration(
                    BvhConfigError::InvalidMaxDepth { depth: max_depth },
                ),
            );
        }
        Ok(
            BvhConfig {
                traverse_cost,
                intersect_cost,
                sah_buckets,
                max_shapes_per_node,
                max_depth,
            },
        )
    }
}

impl Default for BvhConfig {
    /// The default configuration; every default passes validation.
    fn default() -> (r: Self)
        ensures
            r == (BvhConfig {
                traverse_cost: DEFAULT_TRAVERSE_COST,
                intersect_cost: DEFAULT_INTERSECT_COST,
                sah_buckets: DEFAULT_SAH_BUCKETS,
                max_shapes_per_node: DEFAULT_MAX_SHAPES_PER_NODE,
                max_depth: DEFAULT_MAX_DEPTH,
            }),
    {
        BvhConfig {
            traverse_cost: DEFAULT_TRAVERSE_COST,
            intersect_cost: DEFAULT_INTERSECT_COST,
            sah_buckets: DEFAULT_SAH_BUCKETS,
            max_shapes_per_node: DEFAULT_MAX_SHAPES_PER_NODE,
            max_depth: DEFAULT_MAX_DEPTH,
        }
    }
}

} // verus!
