//! Driving the verified walk: probe order, pruning, minimal hits, the
//! any-hit cutoff.

use geodesic::bvh_builder::{BvhBuilder, SplitOutcome};
use geodesic::bvh_config::BvhConfig;
use geodesic::geometry::Aabb;
use geodesic::traversal::{Probe, Traversal};

fn config(max_shapes_per_node: usize, max_depth: usize) -> BvhConfig {
    BvhConfig {
        traverse_cost: (1.0f64).to_bits(),
        intersect_cost: (1.25f64).to_bits(),
        sah_buckets: 16,
        max_shapes_per_node,
        max_depth,
    }
}

fn aabb(lo: f64, hi: f64) -> Aabb {
    Aabb::new([lo.to_bits(); 3], [hi.to_bits(); 3]).unwrap()
}

/// A two-leaf tree over four shapes: shapes 0 and 2 left, 1 and 3 right.
fn two_leaf_tree() -> geodesic::bvh::Bvh {
    let mut b = BvhBuilder::new(&config(3, 64), 4, aabb(0.0, 4.0));
    let _t = b.next_task().unwrap();
    let below = vec![true, false, true, false];
    match b.apply_split(&below) {
        SplitOutcome::Split { left, right } => {
            b.set_node_aabb(left.node, aabb(0.0, 2.0));
            b.set_node_aabb(right.node, aabb(2.0, 4.0));
        }
        SplitOutcome::Leaf => panic!("expected a split"),
    }
    assert!(b.next_task().is_none());
    b.finish().unwrap()
}

#[test]
fn a_full_walk_probes_every_shape_once_and_keeps_the_minimum() {
    let bvh = two_leaf_tree();
    // Synthetic distances per shape; shape 1 is closest.
    let distance = |shape: usize| -> f64 { [5.0, 1.5, 7.0, 3.0][shape] };

    let mut walk = Traversal::start(&bvh);
    let mut probed_shapes = Vec::new();
    while let Some(probe) = walk.next_probe() {
        match probe {
            Probe::Node { .. } => walk.answer_node(true),
            Probe::Shape { shape, .. } => {
                probed_shapes.push(shape);
                walk.answer_shape(Some(distance(shape).to_bits()));
            }
        }
    }
    probed_shapes.sort_unstable();
    assert_eq!(probed_shapes, vec![0, 1, 2, 3]);
    let (shape, d) = walk.finish().unwrap();
    assert_eq!(shape, 1);
    assert_eq!(d, (1.5f64).to_bits());
}

#[test]
fn a_missed_root_prunes_the_whole_tree() {
    let bvh = two_leaf_tree();
    let mut walk = Traversal::start(&bvh);
    let first = walk.next_probe().unwrap();
    assert!(matches!(first, Probe::Node { node: 0 }));
    walk.answer_node(false);
    assert!(walk.next_probe().is_none());
    assert!(walk.is_done());
    assert!(walk.finish().is_none());
}

#[test]
fn a_missed_subtree_skips_only_its_shapes() {
    let bvh = two_leaf_tree();
    let mut walk = Traversal::start(&bvh);
    let mut probed_shapes = Vec::new();
    while let Some(probe) = walk.next_probe() {
        match probe {
            // Visit the root and the left child; miss the right child.
            Probe::Node { node } => walk.answer_node(node != 2),
            Probe::Shape { shape, .. } => {
                probed_shapes.push(shape);
                walk.answer_shape(None);
            }
        }
    }
    probed_shapes.sort_unstable();
    assert_eq!(probed_shapes, vec![0, 2]);
    assert!(walk.finish().is_none());
}

#[test]
fn misses_and_nan_distances_produce_no_result() {
    let bvh = two_leaf_tree();
    let mut walk = Traversal::start(&bvh);
    while let Some(probe) = walk.next_probe() {
        match probe {
            Probe::Node { .. } => walk.answer_node(true),
            Probe::Shape { shape, .. } => {
                // One NaN report, the rest misses.
                walk.answer_shape(if shape == 1 { Some(f64::NAN.to_bits()) } else { None });
            }
        }
    }
    assert!(!walk.found_within(f64::INFINITY.to_bits()));
    assert!(walk.finish().is_none());
}

#[test]
fn the_first_of_two_equal_hits_wins() {
    let bvh = two_leaf_tree();
    let mut walk = Traversal::start(&bvh);
    let mut order = Vec::new();
    while let Some(probe) = walk.next_probe() {
        match probe {
            Probe::Node { .. } => walk.answer_node(true),
            Probe::Shape { shape, .. } => {
                order.push(shape);
                walk.answer_shape(Some((2.0f64).to_bits()));
            }
        }
    }
    let (shape, d) = walk.finish().unwrap();
    assert_eq!(shape, order[0]);
    assert_eq!(d, (2.0f64).to_bits());
}

#[test]
fn found_within_respects_the_cutoff_and_widens_monotonically() {
    let bvh = two_leaf_tree();
    let mut walk = Traversal::start(&bvh);
    while let Some(probe) = walk.next_probe() {
        match probe {
            Probe::Node { .. } => walk.answer_node(true),
            Probe::Shape { shape, .. } => {
                walk.answer_shape(if shape == 3 { Some((4.0f64).to_bits()) } else { None });
            }
        }
    }
    assert!(!walk.found_within((3.0f64).to_bits()));
    assert!(walk.found_within((4.0f64).to_bits()));
    assert!(walk.found_within((5.0f64).to_bits()));
    assert!(walk.found_within(f64::INFINITY.to_bits()));
    assert!(!walk.found_within(f64::NAN.to_bits()));
}

#[test]
fn an_early_stop_reads_found_within_mid_walk() {
    let bvh = two_leaf_tree();
    let max = (2.0f64).to_bits();
    let mut walk = Traversal::start(&bvh);
    let mut probes = 0;
    let mut found = false;
    while let Some(probe) = walk.next_probe() {
        match probe {
            Probe::Node { .. } => walk.answer_node(true),
            Probe::Shape { .. } => {
                probes += 1;
                walk.answer_shape(Some((1.0f64).to_bits()));
                if walk.found_within(max) {
                    found = true;
                    break;
                }
            }
        }
    }
    assert!(found);
    assert_eq!(probes, 1);
}
