//! Validation of configurations and geometric records.

use geodesic::bvh_config::BvhConfig;
use geodesic::config::{
    DEFAULT_INTERSECT_COST, DEFAULT_MAX_DEPTH, DEFAULT_MAX_SHAPES_PER_NODE, DEFAULT_SAH_BUCKETS,
    DEFAULT_TRAVERSE_COST,
};
use geodesic::errors::{BvhConfigError, GeodesicError, GeometryError};
use geodesic::geometry::{Aabb, Hit, Sphere};

fn bits(x: f64) -> u64 {
    x.to_bits()
}

#[test]
fn default_config_is_the_documented_one() {
    let c = BvhConfig::default();
    assert_eq!(c.traverse_cost, DEFAULT_TRAVERSE_COST);
    assert_eq!(c.intersect_cost, DEFAULT_INTERSECT_COST);
    assert_eq!(c.sah_buckets, DEFAULT_SAH_BUCKETS);
    assert_eq!(c.max_shapes_per_node, DEFAULT_MAX_SHAPES_PER_NODE);
    assert_eq!(c.max_depth, DEFAULT_MAX_DEPTH);
}

#[test]
fn valid_config_passes() {
    let c = BvhConfig::new(bits(1.0), bits(1.25), 16, 4, 64).unwrap();
    assert_eq!(c.sah_buckets, 16);
    assert_eq!(c.max_shapes_per_node, 4);
    assert_eq!(c.max_depth, 64);
}

#[test]
fn nonpositive_traverse_cost_is_rejected() {
    for cost in [0.0, -0.0, -1.0, f64::NEG_INFINITY] {
        let e = BvhConfig::new(bits(cost), bits(1.25), 16, 4, 64).unwrap_err();
        assert!(matches!(
            e,
            GeodesicError::InvalidConfiguration(BvhConfigError::InvalidTraverseCost { .. })
        ));
    }
}

#[test]
fn nonpositive_intersect_cost_is_rejected() {
    let e = BvhConfig::new(bits(1.0), bits(-2.0), 16, 4, 64).unwrap_err();
    assert!(matches!(
        e,
        GeodesicError::InvalidConfiguration(BvhConfigError::InvalidIntersectCost { cost })
            if cost == bits(-2.0)
    ));
}

#[test]
fn zero_buckets_small_leaf_cap_and_zero_depth_are_rejected() {
    assert!(matches!(
        BvhConfig::new(bits(1.0), bits(1.25), 0, 4, 64).unwrap_err(),
        GeodesicError::InvalidConfiguration(BvhConfigError::InvalidSahBuckets { buckets: 0 })
    ));
    assert!(matches!(
        BvhConfig::new(bits(1.0), bits(1.25), 16, 2, 64).unwrap_err(),
        GeodesicError::InvalidConfiguration(BvhConfigError::InvalidMaxShapesPerNode { count: 2 })
    ));
    assert!(matches!(
        BvhConfig::new(bits(1.0), bits(1.25), 16, 4, 0).unwrap_err(),
        GeodesicError::InvalidConfiguration(BvhConfigError::InvalidMaxDepth { depth: 0 })
    ));
}

#[test]
fn nan_cost_is_rejected() {
    // A NaN cost compares greater than nothing, so it fails the
    // strictly-positive demand.
    assert!(matches!(
        BvhConfig::new(bits(f64::NAN), bits(1.25), 16, 4, 64).unwrap_err(),
        GeodesicError::InvalidConfiguration(BvhConfigError::InvalidTraverseCost { .. })
    ));
    assert!(BvhConfig::new(bits(1.0), bits(f64::NAN), 16, 4, 64).is_err());
    // Positive infinity still passes, as a number greater than zero.
    assert!(BvhConfig::new(bits(f64::INFINITY), bits(1.25), 16, 4, 64).is_ok());
}

#[test]
fn aabb_accepts_ordered_bounds_and_rejects_inverted_ones() {
    let ok = Aabb::new(
        [bits(-1.0), bits(-2.0), bits(-3.0)],
        [bits(1.0), bits(2.0), bits(3.0)],
    )
    .unwrap();
    assert_eq!(ok.mins[0], bits(-1.0));
    assert_eq!(ok.maxs[2], bits(3.0));

    for axis in 0..3 {
        let mut mins = [bits(0.0); 3];
        let maxs = [bits(1.0); 3];
        mins[axis] = bits(2.0);
        let e = Aabb::new(mins, maxs).unwrap_err();
        assert!(matches!(
            e,
            GeodesicError::InvalidGeometry(GeometryError::InvalidAabbBounds { .. })
        ));
    }
}

#[test]
fn aabb_with_equal_bounds_or_nan_is_accepted() {
    assert!(Aabb::new([bits(1.0); 3], [bits(1.0); 3]).is_ok());
    // A NaN bound never compares greater, as in the comparison it models.
    assert!(Aabb::new([bits(f64::NAN); 3], [bits(0.0); 3]).is_ok());
}

#[test]
fn empty_aabb_is_the_inverted_sentinel() {
    let e = Aabb::empty();
    assert_eq!(e.mins, [f64::MAX.to_bits(); 3]);
    assert_eq!(e.maxs, [f64::MIN.to_bits(); 3]);
}

#[test]
fn sphere_rejects_a_negative_radius_only() {
    assert!(Sphere::new([bits(0.0); 3], bits(1.0)).is_ok());
    assert!(Sphere::new([bits(0.0); 3], bits(0.0)).is_ok());
    assert!(Sphere::new([bits(0.0); 3], bits(f64::NAN)).is_ok());
    let e = Sphere::new([bits(0.0); 3], bits(-1.0)).unwrap_err();
    assert!(matches!(
        e,
        GeodesicError::InvalidGeometry(GeometryError::InvalidRadius { radius })
            if radius == bits(-1.0)
    ));
}

#[test]
fn hit_rejects_a_negative_distance_only() {
    let n = [bits(0.0), bits(0.0), bits(1.0)];
    let h = Hit::new(3, bits(4.0), n, n).unwrap();
    assert_eq!(h.index, 3);
    assert_eq!(h.distance, bits(4.0));
    let e = Hit::new(0, bits(-0.5), n, n).unwrap_err();
    assert!(matches!(
        e,
        GeodesicError::InvalidGeometry(GeometryError::NegativeIntersectionDistance { .. })
    ));
}
