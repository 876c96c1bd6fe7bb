//! Driving the hierarchy builder: leaf decisions, partitioning, the
//! shape of the finished tree.

use geodesic::bvh::{Bvh, BvhNode};
use geodesic::bvh_builder::{BvhBuilder, SplitOutcome};
use geodesic::bvh_config::BvhConfig;
use geodesic::errors::{BvhError, GeodesicError};
use geodesic::geometry::Aabb;

fn config(max_shapes_per_node: usize, max_depth: usize) -> BvhConfig {
    BvhConfig {
        traverse_cost: (1.0f64).to_bits(),
        intersect_cost: (1.25f64).to_bits(),
        sah_buckets: 16,
        max_shapes_per_node,
        max_depth,
    }
}

fn aabb(lo: f64, hi: f64) -> Aabb {
    Aabb::new([lo.to_bits(); 3], [hi.to_bits(); 3]).unwrap()
}

/// Check the structural promises on a finished tree over `n` shapes.
fn check_tree(bvh: &Bvh, n: usize, max_shapes: usize) {
    let nodes = bvh.nodes();
    let indices = bvh.indices();
    assert_eq!(indices.len(), n);
    assert!(nodes.len() <= 2 * n - 1);

    // The index array is a permutation of 0..n.
    let mut seen = vec![false; n];
    for &s in indices.iter() {
        assert!(s < n && !seen[s]);
        seen[s] = true;
    }

    // Every position is covered by exactly one leaf; references are in
    // bounds.
    let mut cover = vec![0usize; n];
    for node in nodes.iter() {
        if node.count > 0 {
            assert!(node.left_child + node.count <= n);
            for p in node.left_child..node.left_child + node.count {
                cover[p] += 1;
            }
        } else {
            assert!(node.left_child + 1 < nodes.len());
        }
    }
    for p in 0..n {
        assert_eq!(cover[p], 1, "position {p} covered {} times", cover[p]);
    }
    let _ = max_shapes;
}

#[test]
fn empty_input_is_an_error_at_finish() {
    let b = BvhBuilder::new(&config(4, 64), 0, Aabb::empty());
    assert!(b.is_done());
    let e = b.finish().unwrap_err();
    assert!(matches!(e, GeodesicError::InvalidBvh(BvhError::EmptyGeometry)));
}

#[test]
fn a_small_input_stays_a_single_leaf() {
    let mut b = BvhBuilder::new(&config(4, 64), 3, aabb(0.0, 1.0));
    assert!(b.next_task().is_none());
    let bvh = b.finish().unwrap();
    assert_eq!(bvh.depth(), 0);
    assert_eq!(bvh.nodes().len(), 1);
    assert_eq!(bvh.nodes()[0].count, 3);
    assert_eq!(bvh.nodes()[0].left_child, 0);
    assert_eq!(bvh.indices().as_slice(), &[0, 1, 2]);
    check_tree(&bvh, 3, 4);
}

#[test]
fn the_depth_cap_finalises_an_oversized_leaf() {
    let mut b = BvhBuilder::new(&config(3, 0), 10, aabb(0.0, 1.0));
    assert!(b.next_task().is_none());
    let bvh = b.finish().unwrap();
    assert_eq!(bvh.nodes().len(), 1);
    assert_eq!(bvh.nodes()[0].count, 10);
    assert_eq!(bvh.depth(), 0);
    check_tree(&bvh, 10, 3);
}

#[test]
fn a_declined_split_leaves_the_node_whole() {
    let mut b = BvhBuilder::new(&config(3, 64), 5, aabb(0.0, 1.0));
    let t = b.next_task().unwrap();
    assert_eq!((t.node, t.first, t.count, t.depth), (0, 0, 5, 0));
    b.decline_split();
    assert!(b.next_task().is_none());
    let bvh = b.finish().unwrap();
    assert_eq!(bvh.nodes().len(), 1);
    assert_eq!(bvh.nodes()[0].count, 5);
    check_tree(&bvh, 5, 3);
}

#[test]
fn a_one_sided_partition_falls_back_to_a_leaf() {
    let mut b = BvhBuilder::new(&config(3, 64), 4, aabb(0.0, 1.0));
    let _t = b.next_task().unwrap();
    let below = vec![true, true, true, true];
    assert!(matches!(b.apply_split(&below), SplitOutcome::Leaf));
    assert!(b.next_task().is_none());
    let bvh = b.finish().unwrap();
    assert_eq!(bvh.nodes().len(), 1);
    check_tree(&bvh, 4, 3);
}

#[test]
fn an_all_above_partition_also_falls_back() {
    let mut b = BvhBuilder::new(&config(3, 64), 4, aabb(0.0, 1.0));
    let _t = b.next_task().unwrap();
    let below = vec![false, false, false, false];
    assert!(matches!(b.apply_split(&below), SplitOutcome::Leaf));
    assert!(b.next_task().is_none());
    assert_eq!(b.finish().unwrap().nodes().len(), 1);
}

#[test]
fn a_real_split_partitions_the_range_and_links_children() {
    let mut b = BvhBuilder::new(&config(3, 64), 4, aabb(0.0, 4.0));
    let t = b.next_task().unwrap();
    assert_eq!((t.node, t.first, t.count, t.depth), (0, 0, 4, 0));
    // Shapes 0 and 2 below the plane, 1 and 3 above.
    let below = vec![true, false, true, false];
    let (left, right) = match b.apply_split(&below) {
        SplitOutcome::Split { left, right } => (left, right),
        SplitOutcome::Leaf => panic!("expected a split"),
    };
    assert_eq!((left.node, left.first, left.count, left.depth), (1, 0, 2, 1));
    assert_eq!((right.node, right.first, right.count, right.depth), (2, 2, 2, 1));
    b.set_node_aabb(left.node, aabb(0.0, 2.0));
    b.set_node_aabb(right.node, aabb(2.0, 4.0));
    // Both children are within the leaf capacity now.
    assert!(b.next_task().is_none());
    let bvh = b.finish().unwrap();
    assert_eq!(bvh.depth(), 1);
    assert_eq!(bvh.nodes().len(), 3);

    let root = bvh.nodes()[0];
    assert_eq!((root.count, root.left_child), (0, 1));
    assert_eq!(root.aabb, aabb(0.0, 4.0));
    assert_eq!(bvh.nodes()[1].aabb, aabb(0.0, 2.0));
    assert_eq!(bvh.nodes()[2].aabb, aabb(2.0, 4.0));

    // The two below-shapes sit in the left half of the index array.
    let mut left_half: Vec<usize> = bvh.indices()[0..2].to_vec();
    left_half.sort_unstable();
    assert_eq!(left_half, vec![0, 2]);
    let mut right_half: Vec<usize> = bvh.indices()[2..4].to_vec();
    right_half.sort_unstable();
    assert_eq!(right_half, vec![1, 3]);
    check_tree(&bvh, 4, 3);
}

#[test]
fn recursive_splits_build_a_balanced_tree() {
    // Eight shapes, leaf capacity one below their count at every level,
    // split evenly by index parity at each step.
    let n = 8;
    let mut b = BvhBuilder::new(&config(3, 64), n, aabb(0.0, 8.0));
    let mut splits = 0;
    while let Some(t) = b.next_task() {
        // Send the smaller half of the indices in the node's range left.
        let mut members: Vec<usize> = b.indices()[t.first..t.first + t.count].to_vec();
        members.sort_unstable();
        let mid = members[t.count / 2];
        let mut below = vec![false; n];
        for &m in &members {
            if m < mid {
                below[m] = true;
            }
        }
        match b.apply_split(&below) {
            SplitOutcome::Split { left, right } => {
                splits += 1;
                b.set_node_aabb(left.node, aabb(0.0, 1.0));
                b.set_node_aabb(right.node, aabb(1.0, 2.0));
            }
            SplitOutcome::Leaf => panic!("even split should not degenerate"),
        }
    }
    assert_eq!(splits, 3);
    let bvh = b.finish().unwrap();
    assert_eq!(bvh.nodes().len(), 7);
    assert_eq!(bvh.depth(), 2);
    check_tree(&bvh, n, 3);
    for node in bvh.nodes().iter() {
        if node.count > 0 {
            assert!(node.count <= 3);
        }
    }
}

#[test]
fn construct_directly_checks_emptiness_in_order() {
    let e = Bvh::construct_directly(vec![], vec![], 0).unwrap_err();
    assert!(matches!(e, GeodesicError::InvalidBvh(BvhError::EmptyGeometry)));
    let e = Bvh::construct_directly(vec![0], vec![], 0).unwrap_err();
    assert!(matches!(e, GeodesicError::InvalidBvh(BvhError::EmptyNodes)));
    let node = BvhNode { aabb: Aabb::empty(), left_child: 0, count: 1 };
    let bvh = Bvh::construct_directly(vec![0], vec![node], 5).unwrap();
    assert_eq!(bvh.depth(), 5);
    assert_eq!(bvh.aabb(), Aabb::empty());
}
