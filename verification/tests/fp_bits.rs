//! The bit-level comparisons agree with the hardware's binary64
//! comparisons on ordinary values, zeroes, infinities, denormals and
//! NaNs.

use geodesic::config::{DEFAULT_INTERSECT_COST, DEFAULT_TRAVERSE_COST};
use geodesic::fp_bits::{gt, le, le_zero, lt_zero, F64_MAX_BITS, F64_MIN_BITS};

fn samples() -> Vec<f64> {
    vec![
        0.0,
        -0.0,
        1.0,
        -1.0,
        1.25,
        -1.25,
        0.5,
        2.5e17,
        -3.75e-12,
        f64::MAX,
        f64::MIN,
        f64::MIN_POSITIVE,
        -f64::MIN_POSITIVE,
        5e-324,
        -5e-324,
        f64::INFINITY,
        f64::NEG_INFINITY,
        f64::NAN,
        -f64::NAN,
        f64::from_bits(0x7ff0000000000001),
        f64::from_bits(0xfff8000000000003),
        f64::EPSILON,
    ]
}

#[test]
fn le_matches_hardware_on_all_sample_pairs() {
    for &a in samples().iter() {
        for &b in samples().iter() {
            assert_eq!(
                le(a.to_bits(), b.to_bits()),
                a <= b,
                "le disagreed on {a:?} <= {b:?}"
            );
        }
    }
}

#[test]
fn gt_matches_hardware_on_all_sample_pairs() {
    for &a in samples().iter() {
        for &b in samples().iter() {
            assert_eq!(
                gt(a.to_bits(), b.to_bits()),
                a > b,
                "gt disagreed on {a:?} > {b:?}"
            );
        }
    }
}

#[test]
fn zero_comparisons_match_hardware() {
    for &a in samples().iter() {
        assert_eq!(le_zero(a.to_bits()), a <= 0.0, "le_zero disagreed on {a:?}");
        assert_eq!(lt_zero(a.to_bits()), a < 0.0, "lt_zero disagreed on {a:?}");
    }
}

#[test]
fn extreme_bit_constants_are_the_finite_extremes() {
    assert_eq!(F64_MAX_BITS, f64::MAX.to_bits());
    assert_eq!(F64_MIN_BITS, f64::MIN.to_bits());
}

#[test]
fn default_cost_constants_are_one_and_five_quarters() {
    assert_eq!(DEFAULT_TRAVERSE_COST, (1.0f64).to_bits());
    assert_eq!(DEFAULT_INTERSECT_COST, (1.25f64).to_bits());
}
