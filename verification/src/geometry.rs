//! Geometric records validated by the library.
//!
//! Coordinates are binary64 bit patterns. The arithmetic of bounding-box
//! merging, surface areas and ray intersection is the caller's; the
//! records here carry the data and enforce the constructive invariants —
//! ordered bounds, a non-negative radius, a non-negative hit distance.

use vstd::prelude::*;

use crate::errors::{GeodesicError, GeometryError};
use crate::fp_bits::{
    f64_gt, f64_is_finite, f64_is_nan, f64_lt_zero, f64_max_bits, f64_min_bits,
    lemma_min_max_bits_commutative, lemma_min_max_bits_extreme, lemma_min_max_bits_idempotent,
    F64_MAX_BITS, F64_MIN_BITS,
};

verus! {

/// Axis-aligned bounding box, as the bit patterns of its two corners.
#[derive(Debug, Clone, Copy, PartialEq, Eq)]
pub struct Aabb {
    /// Minimum corner.
    pub mins: [u64; 3],
    /// Maximum corner.
    pub maxs: [u64; 3],
}

impl Aabb {
    /// What construction from two corners gives: the validated box, or
    /// the error naming the six bounds.
    pub open spec fn new_spec(mins: [u64; 3], maxs: [u64; 3]) -> Result<Aabb, GeodesicError> {
        if f64_gt(mins[0], maxs[0]) || f64_gt(mins[1], maxs[1]) || f64_gt(mins[2], maxs[2]) {
            Err(
                GeodesicError::InvalidGeometry(
                    GeometryError::InvalidAabbBounds {
                        min_x: mins[0],
                        min_y: mins[1],
                        min_z: mins[2],
                        max_x: maxs[0],
                        max_y: maxs[1],
                        max_z: maxs[2],
                    },
                ),
            )
        } else {
            Ok(Aabb { mins, maxs })
        }
    }

    /// Construct a bounding box; fails exactly when some minimum bound
    /// compares strictly greater than the matching maximum bound. A NaN
    /// bound never compares greater, and so is accepted.
    pub fn new(mins: [u64; 3], maxs: [u64; 3]) -> (r: Result<Aabb, GeodesicError>)
        ensures
            r == Aabb::new_spec(mins, maxs),
    {
        if crate::fp_bits::gt(mins[0], maxs[0]) || crate::fp_bits::gt(mins[1], maxs[1])
            || crate::fp_bits::gt(mins[2], maxs[2]) {
            return Err(
                GeodesicError::InvalidGeometry(
                    GeometryError::InvalidAabbBounds {
                        min_x: mins[0],
                        min_y: mins[1],
                        min_z: mins[2],
                        max_x: maxs[0],
                        max_y: maxs[1],
                        max_z: maxs[2],
                    },
                ),
            );
        }
        Ok(Aabb { mins, maxs })
    }

    /// The value of the inverted sentinel box; see [`Aabb::empty`].
    pub open spec fn empty_spec() -> Aabb {
        Aabb {
            mins: [F64_MAX_BITS, F64_MAX_BITS, F64_MAX_BITS],
            maxs: [F64_MIN_BITS, F64_MIN_BITS, F64_MIN_BITS],
        }
    }

    /// The inverted sentinel box: every bound of the minimum corner is the
    /// largest finite value and every bound of the maximum corner the
    /// smallest, so that merging any real box into it restores order.
    pub fn empty() -> (r: Aabb)
        ensures
            r == Aabb::empty_spec(),
    {
        Aabb {
            mins: [F64_MAX_BITS, F64_MAX_BITS, F64_MAX_BITS],
            maxs: [F64_MIN_BITS, F64_MIN_BITS, F64_MIN_BITS],
        }
    }

    /// What merging gives: the box of the componentwise smaller minima
    /// and larger maxima, validated as in `new`.
    pub open spec fn merge_spec(a: Aabb, b: Aabb) -> Result<Aabb, GeodesicError> {
        Aabb::new_spec(
            [
                f64_min_bits(a.mins[0], b.mins[0]),
                f64_min_bits(a.mins[1], b.mins[1]),
                f64_min_bits(a.mins[2], b.mins[2]),
            ],
            [
                f64_max_bits(a.maxs[0], b.maxs[0]),
                f64_max_bits(a.maxs[1], b.maxs[1]),
                f64_max_bits(a.maxs[2], b.maxs[2]),
            ],
        )
    }

    /// The smallest box containing this box and another: componentwise
    /// minima and maxima, validated as in `new`.
    pub fn merge(&self, other: &Aabb) -> (r: Result<Aabb, GeodesicError>)
        ensures
            r == Aabb::merge_spec(*self, *other),
    {
        let mins = [
            crate::fp_bits::min_bits(self.mins[0], other.mins[0]),
            crate::fp_bits::min_bits(self.mins[1], other.mins[1]),
            crate::fp_bits::min_bits(self.mins[2], other.mins[2]),
        ];
        let maxs = [
            crate::fp_bits::max_bits(self.maxs[0], other.maxs[0]),
            crate::fp_bits::max_bits(self.maxs[1], other.maxs[1]),
            crate::fp_bits::max_bits(self.maxs[2], other.maxs[2]),
        ];
        proof {
            assert(mins =~= [
                f64_min_bits(self.mins[0], other.mins[0]),
                f64_min_bits(self.mins[1], other.mins[1]),
                f64_min_bits(self.mins[2], other.mins[2]),
            ]);
            assert(maxs =~= [
                f64_max_bits(self.maxs[0], other.maxs[0]),
                f64_max_bits(self.maxs[1], other.maxs[1]),
                f64_max_bits(self.maxs[2], other.maxs[2]),
            ]);
        }
        Aabb::new(mins, maxs)
    }
}

/// Every bound of the box is a number (no NaN).
pub open spec fn aabb_numeric(a: Aabb) -> bool {
    &&& !f64_is_nan(a.mins[0]) && !f64_is_nan(a.mins[1]) && !f64_is_nan(a.mins[2])
    &&& !f64_is_nan(a.maxs[0]) && !f64_is_nan(a.maxs[1]) && !f64_is_nan(a.maxs[2])
}

/// No minimum bound compares strictly greater than its maximum bound.
pub open spec fn aabb_ordered(a: Aabb) -> bool {
    &&& !f64_gt(a.mins[0], a.maxs[0])
    &&& !f64_gt(a.mins[1], a.maxs[1])
    &&& !f64_gt(a.mins[2], a.maxs[2])
}

/// Every bound of the box is finite.
pub open spec fn aabb_finite(a: Aabb) -> bool {
    &&& f64_is_finite(a.mins[0]) && f64_is_finite(a.mins[1]) && f64_is_finite(a.mins[2])
    &&& f64_is_finite(a.maxs[0]) && f64_is_finite(a.maxs[1]) && f64_is_finite(a.maxs[2])
}

/// Law: merging does not care about argument order, for boxes whose
/// bounds are numbers.
pub proof fn lemma_merge_commutative(a: Aabb, b: Aabb)
    requires
        aabb_numeric(a),
    ensures
        Aabb::merge_spec(a, b) == Aabb::merge_spec(b, a),
{
    lemma_min_max_bits_commutative(a.mins[0], b.mins[0]);
    lemma_min_max_bits_commutative(a.mins[1], b.mins[1]);
    lemma_min_max_bits_commutative(a.mins[2], b.mins[2]);
    lemma_min_max_bits_commutative(a.maxs[0], b.maxs[0]);
    lemma_min_max_bits_commutative(a.maxs[1], b.maxs[1]);
    lemma_min_max_bits_commutative(a.maxs[2], b.maxs[2]);
    assert([
        f64_min_bits(a.mins[0], b.mins[0]),
        f64_min_bits(a.mins[1], b.mins[1]),
        f64_min_bits(a.mins[2], b.mins[2]),
    ] =~= [
        f64_min_bits(b.mins[0], a.mins[0]),
        f64_min_bits(b.mins[1], a.mins[1]),
        f64_min_bits(b.mins[2], a.mins[2]),
    ]);
    assert([
        f64_max_bits(a.maxs[0], b.maxs[0]),
        f64_max_bits(a.maxs[1], b.maxs[1]),
        f64_max_bits(a.maxs[2], b.maxs[2]),
    ] =~= [
        f64_max_bits(b.maxs[0], a.maxs[0]),
        f64_max_bits(b.maxs[1], a.maxs[1]),
        f64_max_bits(b.maxs[2], a.maxs[2]),
    ]);
}

/// Law: merging a valid box with itself gives it back.
pub proof fn lemma_merge_idempotent(a: Aabb)
    requires
        aabb_ordered(a),
    ensures
        Aabb::merge_spec(a, a) == Ok::<Aabb, GeodesicError>(a),
{
    lemma_min_max_bits_idempotent(a.mins[0]);
    lemma_min_max_bits_idempotent(a.mins[1]);
    lemma_min_max_bits_idempotent(a.mins[2]);
    lemma_min_max_bits_idempotent(a.maxs[0]);
    lemma_min_max_bits_idempotent(a.maxs[1]);
    lemma_min_max_bits_idempotent(a.maxs[2]);
    assert([
        f64_min_bits(a.mins[0], a.mins[0]),
        f64_min_bits(a.mins[1], a.mins[1]),
        f64_min_bits(a.mins[2], a.mins[2]),
    ] =~= a.mins);
    assert([
        f64_max_bits(a.maxs[0], a.maxs[0]),
        f64_max_bits(a.maxs[1], a.maxs[1]),
        f64_max_bits(a.maxs[2], a.maxs[2]),
    ] =~= a.maxs);
}

/// Law: merging the sentinel with a finite valid box gives the box
/// back.
pub proof fn lemma_merge_empty_identity(a: Aabb)
    requires
        aabb_finite(a),
        aabb_ordered(a),
    ensures
        Aabb::merge_spec(Aabb::empty_spec(), a) == Ok::<Aabb, GeodesicError>(a),
{
    lemma_min_max_bits_extreme(a.mins[0]);
    lemma_min_max_bits_extreme(a.mins[1]);
    lemma_min_max_bits_extreme(a.mins[2]);
    lemma_min_max_bits_extreme(a.maxs[0]);
    lemma_min_max_bits_extreme(a.maxs[1]);
    lemma_min_max_bits_extreme(a.maxs[2]);
    assert([
        f64_min_bits(Aabb::empty_spec().mins[0], a.mins[0]),
        f64_min_bits(Aabb::empty_spec().mins[1], a.mins[1]),
        f64_min_bits(Aabb::empty_spec().mins[2], a.mins[2]),
    ] =~= a.mins);
    assert([
        f64_max_bits(Aabb::empty_spec().maxs[0], a.maxs[0]),
        f64_max_bits(Aabb::empty_spec().maxs[1], a.maxs[1]),
        f64_max_bits(Aabb::empty_spec().maxs[2], a.maxs[2]),
    ] =~= a.maxs);
}

/// Sphere, as the bit patterns of its centre coordinates and radius.
#[derive(Debug, Clone, Copy, PartialEq, Eq)]
pub struct Sphere {
    /// Centre of the sphere.
    pub center: [u64; 3],
    /// Radius of the sphere.
    pub radius: u64,
}

impl Sphere {
    /// Construct a sphere; fails exactly when the radius compares
    /// strictly less than zero. A NaN radius never compares less, and so
    /// is accepted.
    pub fn new(center: [u64; 3], radius: u64) -> (r: Result<Sphere, GeodesicError>)
        ensures
            r == if f64_lt_zero(radius) {
                Err::<Sphere, GeodesicError>(
                    GeodesicError::InvalidGeometry(GeometryError::InvalidRadius { radius }),
                )
            } else {
                Ok::<Sphere, GeodesicError>(Sphere { center, radius })
            },
    {
        if crate::fp_bits::lt_zero(radius) {
            return Err(GeodesicError::InvalidGeometry(GeometryError::InvalidRadius { radius }));
        }
        Ok(Sphere { center, radius })
    }
}

/// Record of a ray intersection with a surface.
#[derive(Debug, Clone, Copy, PartialEq, Eq)]
pub struct Hit {
    /// Index of the geometry that was hit.
    pub index: usize,
    /// Distance along the ray to the intersection point.
    pub distance: u64,
    /// Geometric surface normal at the intersection point.
    pub geometric_normal: [u64; 3],
    /// Interpolated shading normal at the intersection point.
    pub interpolated_normal: [u64; 3],
}

impl Hit {
    /// Construct an intersection record; fails exactly when the distance
    /// compares strictly less than zero.
    pub fn new(
        index: usize,
        distance: u64,
        geometric_normal: [u64; 3],
        interpolated_normal: [u64; 3],
    ) -> (r: Result<Hit, GeodesicError>)
        ensures
            r == if f64_lt_zero(distance) {
                Err::<Hit, GeodesicError>(
                    GeodesicError::InvalidGeometry(
                        GeometryError::NegativeIntersectionDistance { distance },
                    ),
                )
            } else {
                Ok::<Hit, GeodesicError>(
                    Hit { index, distance, geometric_normal, interpolated_normal },
                )
            },
    {
        if crate::fp_bits::lt_zero(distance) {
            return Err(
                GeodesicError::InvalidGeometry(
                    GeometryError::NegativeIntersectionDistance { distance },
                ),
            );
        }
        Ok(Hit { index, distance, geometric_normal, interpolated_normal })
    }
}

} // verus!
