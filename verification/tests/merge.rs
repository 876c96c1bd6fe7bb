//! Bounding-box merging at the bit level: agreement with hardware
//! minima and maxima, and the merge laws on concrete boxes.

use geodesic::fp_bits::{max_bits, min_bits};
use geodesic::geometry::Aabb;

fn bits(x: f64) -> u64 {
    x.to_bits()
}

fn boxed(lo: [f64; 3], hi: [f64; 3]) -> Aabb {
    Aabb::new(
        [lo[0].to_bits(), lo[1].to_bits(), lo[2].to_bits()],
        [hi[0].to_bits(), hi[1].to_bits(), hi[2].to_bits()],
    )
    .unwrap()
}

#[test]
fn min_and_max_bits_match_hardware_on_ordinary_values() {
    let samples = [
        0.0, 1.0, -1.0, 2.5, -3.75, f64::MAX, f64::MIN, 5e-324, -5e-324, f64::INFINITY,
        f64::NEG_INFINITY, f64::NAN,
    ];
    for &a in samples.iter() {
        for &b in samples.iter() {
            // Values, not bit patterns: the tie between the two zeroes
            // is resolved differently by different hardware minima.
            let lo = f64::from_bits(min_bits(a.to_bits(), b.to_bits()));
            let hi = f64::from_bits(max_bits(a.to_bits(), b.to_bits()));
            let exp_lo = a.min(b);
            let exp_hi = a.max(b);
            assert!(lo == exp_lo || (lo.is_nan() && exp_lo.is_nan()), "min on {a:?},{b:?}");
            assert!(hi == exp_hi || (hi.is_nan() && exp_hi.is_nan()), "max on {a:?},{b:?}");
        }
    }
}

#[test]
fn zero_ties_go_to_the_negative_minimum_and_positive_maximum() {
    assert_eq!(min_bits(bits(0.0), bits(-0.0)), bits(-0.0));
    assert_eq!(min_bits(bits(-0.0), bits(0.0)), bits(-0.0));
    assert_eq!(max_bits(bits(0.0), bits(-0.0)), bits(0.0));
    assert_eq!(max_bits(bits(-0.0), bits(0.0)), bits(0.0));
}

#[test]
fn merge_takes_componentwise_extremes() {
    let a = boxed([-1.0, 0.0, 2.0], [1.0, 3.0, 4.0]);
    let b = boxed([-2.0, 1.0, 3.0], [0.5, 2.0, 9.0]);
    let m = a.merge(&b).unwrap();
    assert_eq!(m.mins, [bits(-2.0), bits(0.0), bits(2.0)]);
    assert_eq!(m.maxs, [bits(1.0), bits(3.0), bits(9.0)]);
}

#[test]
fn merge_is_commutative_and_idempotent_on_concrete_boxes() {
    let a = boxed([-1.0, -2.0, -3.0], [4.0, 5.0, 6.0]);
    let b = boxed([0.0, -9.0, 1.0], [2.0, 0.0, 99.0]);
    assert_eq!(a.merge(&b).unwrap(), b.merge(&a).unwrap());
    assert_eq!(a.merge(&a).unwrap(), a);
}

#[test]
fn merging_into_the_sentinel_restores_the_box() {
    let a = boxed([-7.0, 0.25, 3.0], [7.0, 0.5, 30.0]);
    let empty = Aabb::empty();
    assert_eq!(empty.merge(&a).unwrap(), a);
    assert_eq!(a.merge(&empty).unwrap(), a);
}
