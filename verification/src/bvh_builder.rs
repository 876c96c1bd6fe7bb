//! Construction of a bounding volume hierarchy.
//!
//! The builder is a state machine over the structural side of top-down
//! construction: it owns the index permutation and the growing node
//! array, decides when a node is small or deep enough to stay a leaf,
//! and partitions index ranges. The caller owns the scalar side — it
//! evaluates the surface-area heuristic over the node's bounding boxes
//! and answers each split query with either a refusal or a per-shape
//! verdict of which side of the chosen plane the shape's centroid lies
//! on. The builder proves, for every answer the caller can give, that
//! the index array stays a permutation, that the node array stays a
//! well-formed tree whose leaf ranges tile the index array, and that
//! every leaf over the capacity was excused by the depth cap, a refused
//! split, or a degenerate partition.
//!
//! A run looks like: `new`, then while `next_task` yields a query,
//! compute the heuristic and answer with `apply_split` or
//! `decline_split` (setting the fresh nodes' boxes with
//! `set_node_aabb`), and close with `finish`.

use vstd::prelude::*;
use vstd::multiset::group_multiset_axioms;
use vstd::seq_lib::group_to_multiset_ensures;
use vstd::seq_lib::to_multiset_update;

use crate::bvh::{
    covered_by_some_leaf, has_parent, identity_permutation, is_child_of, is_permutation_of,
    leaf_covers, leaves_tile, nodes_in_bounds, parent_structure, Bvh, BvhNode,
};
use crate::bvh_config::BvhConfig;
use crate::errors::GeodesicError;
use crate::geometry::Aabb;

verus! {

/// A node the builder asks the caller to evaluate a split for: the
/// node's position in the node array, its range in the index array, and
/// its depth.
#[derive(Debug, Clone, Copy, PartialEq, Eq, Structural)]
pub struct SplitTask {
    /// Index of the node in the node array.
    pub node: usize,
    /// Start of the node's range in the index array.
    pub first: usize,
    /// Number of indices in the node's range.
    pub count: usize,
    /// Depth of the node below the root.
    pub depth: usize,
}

/// What a split request came to.
#[derive(Debug, Clone, Copy, PartialEq, Eq, Structural)]
pub enum SplitOutcome {
    /// The partition was degenerate — one side would have been empty —
    /// and the node stays a leaf.
    Leaf,
    /// The node became internal; the two fresh children are returned.
    Split { left: SplitTask, right: SplitTask },
}

/// Builder for a [`Bvh`]; see the module description.
pub struct BvhBuilder {
    /// Leaf capacity taken from the configuration.
    max_shapes_per_node: usize,
    /// Depth cap taken from the configuration.
    max_depth: usize,
    /// Number of shapes the hierarchy is being built over.
    num_shapes: usize,
    /// The index permutation under construction.
    indices: Vec<usize>,
    /// The node array under construction.
    nodes: Vec<BvhNode>,
    /// Nodes waiting to be examined, deepest first.
    stack: Vec<SplitTask>,
    /// The node handed out by `next_task` and not yet answered.
    pending: Option<SplitTask>,
    /// Greatest depth at which a node was made a leaf.
    deepest: usize,
    /// Nodes left as leaves over the capacity: by the depth cap, a
    /// refused split, or a degenerate partition.
    excused: Ghost<Set<int>>,
    /// Number of internal nodes created so far.
    internal_count: Ghost<nat>,
}

/// How many further splits the open nodes could ever yield: a node of
/// `count` shapes can be split at most `count - 1` more times.
pub open spec fn split_budget(ts: Seq<SplitTask>) -> int
    decreases ts.len(),
{
    if ts.len() == 0 {
        0
    } else {
        split_budget(ts.drop_last()) + ts.last().count - 1
    }
}

/// The budget of open tasks is never negative, since every open node
/// holds at least one shape.
proof fn lemma_split_budget_nonneg(ts: Seq<SplitTask>)
    requires
        forall|k: int| 0 <= k < ts.len() ==> (#[trigger] ts[k]).count >= 1,
    ensures
        split_budget(ts) >= 0,
    decreases ts.len(),
{
    if ts.len() > 0 {
        lemma_split_budget_nonneg(ts.drop_last());
    }
}

impl BvhBuilder {
    /// Leaf capacity taken from the configuration.
    pub closed spec fn spec_max_shapes(&self) -> usize {
        self.max_shapes_per_node
    }

    /// Depth cap taken from the configuration.
    pub closed spec fn spec_max_depth(&self) -> usize {
        self.max_depth
    }

    /// Number of shapes the hierarchy is being built over.
    pub closed spec fn spec_num_shapes(&self) -> usize {
        self.num_shapes
    }

    /// The index permutation under construction.
    pub closed spec fn spec_indices(&self) -> Seq<usize> {
        self.indices@
    }

    /// The node array under construction.
    pub closed spec fn spec_nodes(&self) -> Seq<BvhNode> {
        self.nodes@
    }

    /// Nodes waiting to be examined.
    pub closed spec fn spec_stack(&self) -> Seq<SplitTask> {
        self.stack@
    }

    /// The node handed out and not yet answered.
    pub closed spec fn spec_pending(&self) -> Option<SplitTask> {
        self.pending
    }

    /// Greatest depth at which a node was made a leaf.
    pub closed spec fn spec_deepest(&self) -> int {
        self.deepest as int
    }

    /// Nodes left as leaves over the capacity.
    pub closed spec fn spec_excused(&self) -> Set<int> {
        self.excused@
    }

    /// Number of internal nodes created so far.
    pub closed spec fn spec_internal(&self) -> nat {
        self.internal_count@
    }

    /// Every node not yet decided: the stack and the pending node.
    pub open spec fn open_tasks(&self) -> Seq<SplitTask> {
        match self.spec_pending() {
            Some(t) => self.spec_stack().push(t),
            None => self.spec_stack(),
        }
    }

    /// The task describes its node truthfully.
    pub open spec fn task_consistent(&self, t: SplitTask) -> bool {
        &&& (t.node as int) < self.spec_nodes().len()
        &&& self.spec_nodes()[t.node as int].count == t.count
        &&& self.spec_nodes()[t.node as int].left_child == t.first
        &&& t.count >= 1
    }

    /// Node `j` is still waiting to be decided.
    pub open spec fn is_open_node(&self, j: int) -> bool {
        exists|k: int|
            0 <= k < self.open_tasks().len() && (#[trigger] self.open_tasks()[k]).node == j
    }

    /// The builder invariant; every public operation preserves it.
    ///
    /// The index array is a permutation of `0..num_shapes`; the node
    /// array is in bounds and its leaf ranges — decided leaves and
    /// still-open nodes alike — tile the index array; every open task
    /// describes its node truthfully and no node is open twice; a
    /// pending task is always worth splitting (over capacity, under the
    /// depth cap); and every decided leaf is within capacity or excused.
    pub open spec fn inv(&self) -> bool {
        let n = self.spec_num_shapes() as int;
        &&& self.spec_indices().len() == n
        &&& is_permutation_of(self.spec_indices(), n)
        &&& forall|k: int|
            0 <= k < self.spec_indices().len() ==> (#[trigger] self.spec_indices()[k])
                < self.spec_num_shapes()
        &&& nodes_in_bounds(self.spec_nodes(), n)
        &&& (n > 0 ==> self.spec_nodes().len() > 0)
        &&& (n == 0 ==> self.spec_nodes().len() == 0 && self.open_tasks().len() == 0)
        &&& leaves_tile(self.spec_nodes(), n)
        &&& parent_structure(self.spec_nodes())
        &&& forall|k: int|
            0 <= k < self.open_tasks().len() ==> self.task_consistent(
                #[trigger] self.open_tasks()[k],
            )
        &&& forall|k1: int, k2: int|
            0 <= k1 < self.open_tasks().len() && 0 <= k2 < self.open_tasks().len() && k1 != k2
                ==> (#[trigger] self.open_tasks()[k1]).node != (#[trigger] self.open_tasks()[k2]).node
        &&& (self.spec_pending() matches Some(t) ==> t.count > self.spec_max_shapes() && t.depth
            < self.spec_max_depth())
        &&& forall|k: int|
            0 <= k < self.open_tasks().len() ==> (#[trigger] self.open_tasks()[k]).depth
                <= self.spec_max_depth()
        &&& self.spec_deepest() <= self.spec_max_depth()
        &&& (n > 0 ==> self.spec_nodes().len() == 2 * self.spec_internal() + 1)
        &&& (n > 0 ==> self.spec_internal() + split_budget(self.open_tasks()) <= n - 1)
        &&& forall|j: int|
            0 <= j < self.spec_nodes().len() && (#[trigger] self.spec_nodes()[j]).count > 0
                && !self.is_open_node(j) ==> self.spec_nodes()[j].count <= self.spec_max_shapes()
                || self.spec_excused().contains(j)
    }

    /// No node is waiting or pending: the tree is fully decided.
    pub open spec fn done(&self) -> bool {
        self.spec_stack().len() == 0 && self.spec_pending() is None
    }

    /// Start building over `num_shapes` shapes whose merged bounding box
    /// is `root_aabb`. With at least one shape, the root node holds the
    /// whole index range and is the single open node; with none, the
    /// builder is immediately done and `finish` will report the error.
    pub fn new(config: &BvhConfig, num_shapes: usize, root_aabb: Aabb) -> (r: BvhBuilder)
        ensures
            r.inv(),
            r.spec_max_shapes() == config.max_shapes_per_node,
            r.spec_max_depth() == config.max_depth,
            r.spec_num_shapes() == num_shapes,
            r.spec_indices() == identity_permutation(num_shapes as int),
            r.spec_pending() is None,
            r.spec_deepest() == 0,
            r.spec_excused() == Set::<int>::empty(),
            num_shapes > 0 ==> r.spec_nodes() == seq![
                BvhNode { aabb: root_aabb, left_child: 0, count: num_shapes },
            ] && r.spec_stack() == seq![
                SplitTask { node: 0, first: 0, count: num_shapes, depth: 0 },
            ],
            num_shapes == 0 ==> r.done() && r.spec_nodes().len() == 0,
    {
        let mut indices: Vec<usize> = Vec::new();
        let mut i: usize = 0;
        while i < num_shapes
            invariant
                i <= num_shapes,
                indices@ == identity_permutation(i as int),
            decreases num_shapes - i,
        {
            indices.push(i);
            proof {
                assert(indices@ =~= identity_permutation(i + 1));
            }
            i = i + 1;
        }

        let mut nodes: Vec<BvhNode> = Vec::new();
        let mut stack: Vec<SplitTask> = Vec::new();
        if num_shapes > 0 {
            nodes.push(BvhNode { aabb: root_aabb, left_child: 0, count: num_shapes });
            stack.push(SplitTask { node: 0, first: 0, count: num_shapes, depth: 0 });
        }

        let r = BvhBuilder {
            max_shapes_per_node: config.max_shapes_per_node,
            max_depth: config.max_depth,
            num_shapes,
            indices,
            nodes,
            stack,
            pending: None,
            deepest: 0,
            excused: Ghost(Set::empty()),
            internal_count: Ghost(0),
        };
        proof {
            assert forall|k: int| 0 <= k < r.spec_indices().len() implies (
            #[trigger] r.spec_indices()[k]) < r.spec_num_shapes() by {
                assert(r.spec_indices()[k] == k as usize);
            }
            if num_shapes > 0 {
                assert forall|p: int|
                    0 <= p < r.spec_num_shapes() implies #[trigger] covered_by_some_leaf(
                    r.spec_nodes(),
                    p,
                ) by {
                    assert(leaf_covers(r.spec_nodes()[0], p));
                }
                assert(r.open_tasks()[0].node == 0);
                assert(r.is_open_node(0));
                assert(r.open_tasks().drop_last() =~= Seq::<SplitTask>::empty());
                assert(split_budget(Seq::<SplitTask>::empty()) == 0);
                assert(split_budget(r.open_tasks()) == num_shapes - 1);
            }
        }
        r
    }

    /// The index permutation as built so far; the caller reads a node's
    /// range of it to find which shapes the node holds.
    pub fn indices(&self) -> (r: &Vec<usize>)
        ensures
            r@ == self.spec_indices(),
    {
        &self.indices
    }

    /// Whether the tree is fully decided.
    pub fn is_done(&self) -> (r: bool)
        ensures
            r == self.done(),
    {
        self.stack.len() == 0 && self.pending.is_none()
    }

    /// Hand out the next node whose split is worth evaluating.
    ///
    /// Nodes within the leaf capacity, and nodes at the depth cap, are
    /// decided here and now as leaves; the first remaining node is
    /// returned and stays pending until `apply_split` or
    /// `decline_split` answers for it. `None` exactly when nothing is
    /// left to decide.
    pub fn next_task(&mut self) -> (r: Option<SplitTask>)
        requires
            old(self).inv(),
            old(self).spec_pending() is None,
        ensures
            final(self).inv(),
            final(self).spec_pending() == r,
            final(self).spec_nodes() == old(self).spec_nodes(),
            final(self).spec_indices() == old(self).spec_indices(),
            final(self).spec_num_shapes() == old(self).spec_num_shapes(),
            final(self).spec_max_shapes() == old(self).spec_max_shapes(),
            final(self).spec_max_depth() == old(self).spec_max_depth(),
            final(self).spec_deepest() >= old(self).spec_deepest(),
            old(self).spec_excused().subset_of(final(self).spec_excused()),
            r matches Some(t) ==> t.count > old(self).spec_max_shapes() && t.depth < old(self).spec_max_depth() && final(self).task_consistent(t),
            r matches Some(t) ==> exists|q: int|
                {
                    &&& 0 <= q < old(self).spec_stack().len()
                    &&& t == old(self).spec_stack()[q]
                    &&& final(self).spec_stack() == old(self).spec_stack().take(q)
                    &&& forall|k: int|
                        q < k < old(self).spec_stack().len() ==> (#[trigger] old(self).spec_stack()[k]).count <= old(self).spec_max_shapes() || old(self).spec_stack()[k].depth >= old(self).spec_max_depth()
                },
            r is None ==> forall|k: int|
                0 <= k < old(self).spec_stack().len() ==> (#[trigger] old(self).spec_stack()[k]).count <= old(self).spec_max_shapes() || old(self).spec_stack()[k].depth >= old(self).spec_max_depth(),
            r is None ==> final(self).done(),
    {
        proof {
            assert(old(self).spec_stack().take(old(self).spec_stack().len() as int) =~= old(self).spec_stack());
        }
        loop
            invariant
                self.inv(),
                self.spec_pending() is None,
                self.spec_nodes() == old(self).spec_nodes(),
                self.spec_indices() == old(self).spec_indices(),
                self.spec_num_shapes() == old(self).spec_num_shapes(),
                self.spec_max_shapes() == old(self).spec_max_shapes(),
                self.spec_max_depth() == old(self).spec_max_depth(),
                self.spec_deepest() >= old(self).spec_deepest(),
                old(self).spec_excused().subset_of(self.spec_excused()),
                self.spec_stack().len() <= old(self).spec_stack().len(),
                self.spec_stack() == old(self).spec_stack().take(
                    self.spec_stack().len() as int,
                ),
                forall|k: int|
                    self.spec_stack().len() <= k < old(self).spec_stack().len() ==> (
                    #[trigger] old(self).spec_stack()[k]).count <= old(self).spec_max_shapes()
                        || old(self).spec_stack()[k].depth >= old(self).spec_max_depth(),
            decreases self.spec_stack().len(),
        {
            let ghost pre = *self;
            match self.stack.pop() {
                None => {
                    return None;
                },
                Some(t) => {
                    proof {
                        assert(pre.spec_stack() == old(self).spec_stack().take(
                            pre.spec_stack().len() as int,
                        ));
                        assert(t == old(self).spec_stack()[pre.spec_stack().len() - 1]);
                        assert(self.spec_stack() =~= old(self).spec_stack().take(
                            self.spec_stack().len() as int,
                        ));
                    }
                    if t.count <= self.max_shapes_per_node || t.depth >= self.max_depth {
                        // The node stays a leaf; over-capacity leaves are
                        // here only because of the depth cap, and are
                        // excused.
                        if t.depth > self.deepest {
                            self.deepest = t.depth;
                        }
                        if t.count > self.max_shapes_per_node {
                            self.excused = Ghost(self.excused@.insert(t.node as int));
                        }
                        proof {
                            assert(self.spec_stack() =~= pre.open_tasks().drop_last());
                            self.lemma_settle(pre, t);
                        }
                    } else {
                        self.pending = Some(t);
                        proof {
                            assert(self.open_tasks() =~= pre.open_tasks());
                            let q = pre.spec_stack().len() - 1;
                            assert(0 <= q < old(self).spec_stack().len() && t == old(self).spec_stack()[q] && self.spec_stack() == old(self).spec_stack().take(
                                q,
                            ));
                        }
                        return Some(t);
                    }
                },
            }
        }
    }

    /// Refuse to split the pending node: the caller found no beneficial
    /// split. The node is decided as a leaf and excused.
    pub fn decline_split(&mut self)
        requires
            old(self).inv(),
            old(self).spec_pending() is Some,
        ensures
            final(self).inv(),
            final(self).spec_pending() is None,
            final(self).spec_nodes() == old(self).spec_nodes(),
            final(self).spec_indices() == old(self).spec_indices(),
            final(self).spec_stack() == old(self).spec_stack(),
            final(self).spec_num_shapes() == old(self).spec_num_shapes(),
            final(self).spec_max_shapes() == old(self).spec_max_shapes(),
            final(self).spec_max_depth() == old(self).spec_max_depth(),
            final(self).spec_deepest() >= old(self).spec_deepest(),
            final(self).spec_excused() == old(self).spec_excused().insert(
                old(self).spec_pending().unwrap().node as int,
            ),
    {
        let ghost pre = *self;
        let t = self.pending.unwrap();
        self.pending = None;
        if t.depth > self.deepest {
            self.deepest = t.depth;
        }
        self.excused = Ghost(self.excused@.insert(t.node as int));
        proof {
            assert(pre.open_tasks() == pre.spec_stack().push(t));
            assert(self.spec_stack() =~= pre.open_tasks().drop_last());
            self.lemma_settle(pre, t);
        }
    }

    /// After settling the last open task `t` of `pre` as a leaf —
    /// popped within capacity or at the depth cap, or answered with a
    /// refusal or a degenerate partition (and then excused) — the
    /// invariant still holds.
    proof fn lemma_settle(&self, pre: BvhBuilder, t: SplitTask)
        requires
            pre.inv(),
            pre.open_tasks().len() > 0,
            t == pre.open_tasks().last(),
            self.spec_stack() == pre.open_tasks().drop_last(),
            self.spec_pending() is None,
            self.spec_nodes() == pre.spec_nodes(),
            self.spec_indices().len() == pre.spec_indices().len(),
            is_permutation_of(self.spec_indices(), self.spec_num_shapes() as int),
            forall|k: int|
                0 <= k < self.spec_indices().len() ==> (#[trigger] self.spec_indices()[k])
                    < self.spec_num_shapes(),
            self.spec_num_shapes() == pre.spec_num_shapes(),
            self.spec_max_shapes() == pre.spec_max_shapes(),
            self.spec_max_depth() == pre.spec_max_depth(),
            pre.spec_excused().subset_of(self.spec_excused()),
            t.count > pre.spec_max_shapes() ==> self.spec_excused().contains(t.node as int),
            self.spec_internal() == pre.spec_internal(),
            self.spec_deepest() <= pre.spec_max_depth(),
        ensures
            self.inv(),
    {
        let n = self.spec_num_shapes() as int;
        assert forall|k: int|
            0 <= k < self.open_tasks().len() implies self.task_consistent(
            #[trigger] self.open_tasks()[k],
        ) by {
            assert(self.open_tasks()[k] == pre.open_tasks()[k]);
            assert(pre.task_consistent(pre.open_tasks()[k]));
        }
        assert forall|k: int|
            0 <= k < self.open_tasks().len() implies (#[trigger] self.open_tasks()[k]).depth
            <= self.spec_max_depth() by {
            assert(self.open_tasks()[k] == pre.open_tasks()[k]);
        }
        if n > 0 {
            assert(pre.open_tasks() =~= self.open_tasks().push(t));
            assert((self.open_tasks().push(t)).drop_last() =~= self.open_tasks());
            assert(split_budget(pre.open_tasks()) == split_budget(self.open_tasks()) + t.count
                - 1);
            assert(pre.task_consistent(pre.open_tasks().last()));
        }
        assert forall|k1: int, k2: int|
            0 <= k1 < self.open_tasks().len() && 0 <= k2 < self.open_tasks().len() && k1 != k2
                implies (#[trigger] self.open_tasks()[k1]).node
            != (#[trigger] self.open_tasks()[k2]).node by {
            assert(self.open_tasks()[k1] == pre.open_tasks()[k1]);
            assert(self.open_tasks()[k2] == pre.open_tasks()[k2]);
        }
        assert forall|j: int|
            0 <= j < self.spec_nodes().len() && (#[trigger] self.spec_nodes()[j]).count > 0
                && !self.is_open_node(j) implies self.spec_nodes()[j].count
            <= self.spec_max_shapes() || self.spec_excused().contains(j) by {
            if pre.is_open_node(j) {
                let k = choose|k: int|
                    0 <= k < pre.open_tasks().len() && (#[trigger] pre.open_tasks()[k]).node == j;
                if k < pre.open_tasks().len() - 1 {
                    assert(self.open_tasks()[k].node == j);
                    assert(false);
                } else {
                    assert(j == t.node);
                }
            } else {
                assert(pre.spec_nodes()[j].count <= pre.spec_max_shapes()
                    || pre.spec_excused().contains(j));
            }
        }
        if n == 0 {
            assert(pre.open_tasks().len() == 0);
        }
    }

    /// Record the bounding box of a node. The box takes no part in the
    /// structural invariant; the caller computes it by merging the boxes
    /// of the shapes in the node's range.
    pub fn set_node_aabb(&mut self, node: usize, aabb: Aabb)
        requires
            old(self).inv(),
            (node as int) < old(self).spec_nodes().len(),
        ensures
            final(self).inv(),
            final(self).spec_nodes() == old(self).spec_nodes().update(
                node as int,
                BvhNode {
                    aabb,
                    left_child: old(self).spec_nodes()[node as int].left_child,
                    count: old(self).spec_nodes()[node as int].count,
                },
            ),
            final(self).spec_indices() == old(self).spec_indices(),
            final(self).spec_stack() == old(self).spec_stack(),
            final(self).spec_pending() == old(self).spec_pending(),
            final(self).spec_num_shapes() == old(self).spec_num_shapes(),
            final(self).spec_max_shapes() == old(self).spec_max_shapes(),
            final(self).spec_max_depth() == old(self).spec_max_depth(),
            final(self).spec_deepest() == old(self).spec_deepest(),
            final(self).spec_excused() == old(self).spec_excused(),
    {
        let ghost pre = *self;
        let mut entry = self.nodes[node];
        entry.aabb = aabb;
        self.nodes.set(node, entry);
        proof {
            let n = self.spec_num_shapes() as int;
            assert(self.open_tasks() == pre.open_tasks());
            assert forall|j: int| 0 <= j < self.spec_nodes().len() implies (
            #[trigger] self.spec_nodes()[j]).count == pre.spec_nodes()[j].count
                && self.spec_nodes()[j].left_child == pre.spec_nodes()[j].left_child by {}
            assert forall|p: int|
                0 <= p < n implies #[trigger] covered_by_some_leaf(self.spec_nodes(), p) by {
                assert(covered_by_some_leaf(pre.spec_nodes(), p));
                let j = choose|j: int|
                    0 <= j < pre.spec_nodes().len() && leaf_covers(#[trigger] pre.spec_nodes()[j], p);
                assert(leaf_covers(self.spec_nodes()[j], p));
            }
            assert forall|p: int, j1: int, j2: int|
                0 <= j1 < self.spec_nodes().len() && 0 <= j2 < self.spec_nodes().len()
                    && #[trigger] leaf_covers(self.spec_nodes()[j1], p) && #[trigger] leaf_covers(
                    self.spec_nodes()[j2],
                    p,
                ) implies j1 == j2 by {
                assert(leaf_covers(pre.spec_nodes()[j1], p));
                assert(leaf_covers(pre.spec_nodes()[j2], p));
            }
            assert forall|m: int|
                1 <= m < self.spec_nodes().len() implies #[trigger] has_parent(
                self.spec_nodes(),
                m,
            ) by {
                assert(has_parent(pre.spec_nodes(), m));
                let j = choose|j: int| #[trigger] is_child_of(pre.spec_nodes(), m, j);
                assert(is_child_of(self.spec_nodes(), m, j));
            }
            assert forall|m: int, j1: int, j2: int|
                #[trigger] is_child_of(self.spec_nodes(), m, j1) && #[trigger] is_child_of(
                    self.spec_nodes(),
                    m,
                    j2,
                ) implies j1 == j2 by {
                assert(is_child_of(pre.spec_nodes(), m, j1));
                assert(is_child_of(pre.spec_nodes(), m, j2));
            }
            assert forall|k: int|
                0 <= k < self.open_tasks().len() implies self.task_consistent(
                #[trigger] self.open_tasks()[k],
            ) by {
                assert(pre.task_consistent(pre.open_tasks()[k]));
            }
            assert forall|j: int|
                0 <= j < self.spec_nodes().len() && (#[trigger] self.spec_nodes()[j]).count > 0
                    && !self.is_open_node(j) implies self.spec_nodes()[j].count
                <= self.spec_max_shapes() || self.spec_excused().contains(j) by {
                assert forall|k: int|
                    0 <= k < pre.open_tasks().len() && (#[trigger] pre.open_tasks()[k]).node == j
                        implies false by {
                    assert(self.open_tasks()[k].node == j);
                }
                assert(!pre.is_open_node(j));
            }
        }
    }

    /// Partition `indices[first .. first + count)` in place by the
    /// caller's verdicts, Hoare style: positions whose index has a true
    /// verdict end up at the front of the range. Returns how many.
    fn partition_range(&mut self, first: usize, count: usize, below: &Vec<bool>) -> (lc: usize)
        requires
            count >= 1,
            first + count <= old(self).spec_indices().len(),
            forall|k: int|
                0 <= k < old(self).spec_indices().len() ==> (#[trigger] old(self).spec_indices()[k]) < below@.len(),
        ensures
            final(self).spec_indices().len() == old(self).spec_indices().len(),
            final(self).spec_indices().to_multiset() == old(self).spec_indices().to_multiset(),
            forall|k: int|
                0 <= k < old(self).spec_indices().len() && !(first <= k < first + count)
                    ==> final(self).spec_indices()[k] == old(self).spec_indices()[k],
            forall|k: int|
                0 <= k < final(self).spec_indices().len() ==> (#[trigger] final(self).spec_indices()[k]) < below@.len(),
            lc <= count,
            forall|k: int|
                first <= k < first + lc ==> below@[final(self).spec_indices()[k] as int],
            forall|k: int|
                first + lc <= k < first + count ==> !below@[final(self).spec_indices()[k] as int],
            final(self).spec_nodes() == old(self).spec_nodes(),
            final(self).spec_stack() == old(self).spec_stack(),
            final(self).spec_pending() == old(self).spec_pending(),
            final(self).spec_num_shapes() == old(self).spec_num_shapes(),
            final(self).spec_max_shapes() == old(self).spec_max_shapes(),
            final(self).spec_max_depth() == old(self).spec_max_depth(),
            final(self).spec_deepest() == old(self).spec_deepest(),
            final(self).spec_excused() == old(self).spec_excused(),
            final(self).spec_internal() == old(self).spec_internal(),
    {
        let total = self.indices.len();
        let mut i: usize = first;
        let mut j: usize = first + count - 1;
        while i <= j
            invariant
                first <= i <= first + count,
                i <= j + 1,
                j < first + count,
                first + count <= total,
                total == self.spec_indices().len(),
                self.spec_indices().len() == old(self).spec_indices().len(),
                self.spec_indices().to_multiset() == old(self).spec_indices().to_multiset(),
                forall|k: int|
                    0 <= k < old(self).spec_indices().len() && !(first <= k < first + count)
                        ==> self.spec_indices()[k] == old(self).spec_indices()[k],
                forall|k: int|
                    0 <= k < self.spec_indices().len() ==> (#[trigger] self.spec_indices()[k])
                        < below@.len(),
                forall|k: int| first <= k < i ==> below@[self.spec_indices()[k] as int],
                forall|k: int|
                    j < k < first + count ==> !below@[self.spec_indices()[k] as int],
                self.spec_nodes() == old(self).spec_nodes(),
                self.spec_stack() == old(self).spec_stack(),
                self.spec_pending() == old(self).spec_pending(),
                self.spec_num_shapes() == old(self).spec_num_shapes(),
                self.spec_max_shapes() == old(self).spec_max_shapes(),
                self.spec_max_depth() == old(self).spec_max_depth(),
                self.spec_deepest() == old(self).spec_deepest(),
                self.spec_excused() == old(self).spec_excused(),
                self.spec_internal() == old(self).spec_internal(),
            decreases j + 1 - i,
        {
            let s = self.indices[i];
            if below[s] {
                i = i + 1;
            } else {
                let ghost sb = self.indices@;
                let x = self.indices[i];
                let y = self.indices[j];
                self.indices.set(i, y);
                self.indices.set(j, x);
                proof {
                    lemma_swap_multiset(sb, i as int, j as int);
                }
                if j == 0 {
                    // Every position examined refused the plane: the
                    // whole range sits on the far side, nothing is left
                    // of the split, and the caller falls back to a leaf.
                    proof {
                        assert(i == 0 && first == 0);
                        assert(self.spec_indices()[0] == s);
                    }
                    return 0;
                }
                j = j - 1;
            }
        }
        i - first
    }

    /// Answer the pending split query with per-shape verdicts: `below`
    /// says, for each shape index, whether its centroid lies below the
    /// chosen plane. The node's range is partitioned in place; if one
    /// side ends up empty the node is decided as a leaf and excused,
    /// otherwise two fresh child nodes take the two halves of the range
    /// and become open. The caller then records the children's bounding
    /// boxes with `set_node_aabb`.
    pub fn apply_split(&mut self, below: &Vec<bool>) -> (r: SplitOutcome)
        requires
            old(self).inv(),
            old(self).spec_pending() is Some,
            below@.len() == old(self).spec_num_shapes(),
        ensures
            final(self).inv(),
            final(self).spec_pending() is None,
            final(self).spec_num_shapes() == old(self).spec_num_shapes(),
            final(self).spec_max_shapes() == old(self).spec_max_shapes(),
            final(self).spec_max_depth() == old(self).spec_max_depth(),
            final(self).spec_indices().to_multiset() == old(self).spec_indices().to_multiset(),
            old(self).spec_pending() matches Some(t) ==> forall|k: int|
                0 <= k < old(self).spec_indices().len() && !(t.first <= k < t.first + t.count)
                    ==> final(self).spec_indices()[k] == old(self).spec_indices()[k],
            old(self).spec_pending() matches Some(t) ==> (r matches SplitOutcome::Leaf ==> {
                &&& final(self).spec_nodes() == old(self).spec_nodes()
                &&& final(self).spec_stack() == old(self).spec_stack()
                &&& final(self).spec_excused() == old(self).spec_excused().insert(t.node as int)
                &&& ((forall|k: int|
                    t.first <= k < t.first + t.count ==> below@[final(self).spec_indices()[k] as int]) || (forall|k: int|
                    t.first <= k < t.first + t.count ==> !below@[final(self).spec_indices()[k] as int]))
            }),
            old(self).spec_pending() matches Some(t) ==> (r matches SplitOutcome::Split {
                left,
                right,
            } ==> {
                &&& left.node == old(self).spec_nodes().len()
                &&& right.node == left.node + 1
                &&& left.first == t.first
                &&& left.count >= 1
                &&& right.count >= 1
                &&& left.count + right.count == t.count
                &&& right.first == t.first + left.count
                &&& left.depth == t.depth + 1
                &&& right.depth == t.depth + 1
                &&& final(self).spec_nodes() == old(self).spec_nodes().update(
                    t.node as int,
                    BvhNode {
                        aabb: old(self).spec_nodes()[t.node as int].aabb,
                        left_child: left.node,
                        count: 0,
                    },
                ).push(
                    BvhNode { aabb: Aabb::empty_spec(), left_child: left.first, count: left.count },
                ).push(
                    BvhNode { aabb: Aabb::empty_spec(), left_child: right.first, count: right.count },
                )
                &&& final(self).spec_stack() == old(self).spec_stack().push(right).push(left)
                &&& final(self).spec_excused() == old(self).spec_excused()
                &&& forall|k: int|
                    left.first <= k < left.first + left.count ==> below@[final(self).spec_indices()[k] as int]
                &&& forall|k: int|
                    right.first <= k < right.first + right.count ==> !below@[final(self).spec_indices()[k] as int]
            }),
    {
        let t = self.pending.unwrap();
        proof {
            assert(old(self).open_tasks().last() == t);
            assert(old(self).task_consistent(t));
            assert(t.first + t.count <= old(self).spec_num_shapes());
        }
        let lc = self.partition_range(t.first, t.count, below);

        if lc == 0 || lc == t.count {
            // Degenerate partition: the node stays a leaf, excused.
            let ghost pre = *self;
            self.pending = None;
            if t.depth > self.deepest {
                self.deepest = t.depth;
            }
            self.excused = Ghost(self.excused@.insert(t.node as int));
            proof {
                assert(pre.open_tasks() == pre.spec_stack().push(t));
                assert(self.spec_stack() =~= pre.open_tasks().drop_last());
                self.lemma_settle(pre, t);
            }
            return SplitOutcome::Leaf;
        }

        let ghost pre = *self;
        self.pending = None;
        proof {
            self.internal_count@ = self.internal_count@ + 1;
        }
        let left_node = BvhNode { aabb: Aabb::empty(), left_child: t.first, count: lc };
        let right_node = BvhNode {
            aabb: Aabb::empty(),
            left_child: t.first + lc,
            count: t.count - lc,
        };
        self.nodes.push(left_node);
        self.nodes.push(right_node);
        let ln = self.nodes.len() - 2;
        let mut parent = self.nodes[t.node];
        parent.left_child = ln;
        parent.count = 0;
        self.nodes.set(t.node, parent);
        let lt = SplitTask { node: ln, first: t.first, count: lc, depth: t.depth + 1 };
        let rt = SplitTask {
            node: ln + 1,
            first: t.first + lc,
            count: t.count - lc,
            depth: t.depth + 1,
        };
        self.stack.push(rt);
        self.stack.push(lt);
        proof {
            assert(self.spec_nodes() =~= pre.spec_nodes().update(
                t.node as int,
                BvhNode {
                    aabb: pre.spec_nodes()[t.node as int].aabb,
                    left_child: lt.node,
                    count: 0,
                },
            ).push(
                BvhNode { aabb: Aabb::empty_spec(), left_child: lt.first, count: lt.count },
            ).push(
                BvhNode { aabb: Aabb::empty_spec(), left_child: rt.first, count: rt.count },
            ));
            self.lemma_split_inv(pre, t, lt, rt);
        }
        SplitOutcome::Split { left: lt, right: rt }
    }

    /// After replacing the pending node `t` of `pre` by two fresh child
    /// leaves covering the two halves of its range, the invariant still
    /// holds.
    proof fn lemma_split_inv(&self, pre: BvhBuilder, t: SplitTask, lt: SplitTask, rt: SplitTask)
        requires
            pre.inv(),
            pre.spec_pending() == Some(t),
            lt.node == pre.spec_nodes().len(),
            rt.node == lt.node + 1,
            lt.first == t.first,
            lt.count >= 1,
            rt.count >= 1,
            lt.count + rt.count == t.count,
            rt.first == t.first + lt.count,
            lt.depth == t.depth + 1,
            rt.depth == t.depth + 1,
            self.spec_nodes() == pre.spec_nodes().update(
                t.node as int,
                BvhNode {
                    aabb: pre.spec_nodes()[t.node as int].aabb,
                    left_child: lt.node,
                    count: 0,
                },
            ).push(
                BvhNode { aabb: Aabb::empty_spec(), left_child: lt.first, count: lt.count },
            ).push(
                BvhNode { aabb: Aabb::empty_spec(), left_child: rt.first, count: rt.count },
            ),
            self.spec_stack() == pre.spec_stack().push(rt).push(lt),
            self.spec_pending() is None,
            self.spec_indices().len() == pre.spec_indices().len(),
            is_permutation_of(self.spec_indices(), self.spec_num_shapes() as int),
            forall|k: int|
                0 <= k < self.spec_indices().len() ==> (#[trigger] self.spec_indices()[k])
                    < self.spec_num_shapes(),
            self.spec_num_shapes() == pre.spec_num_shapes(),
            self.spec_max_shapes() == pre.spec_max_shapes(),
            self.spec_max_depth() == pre.spec_max_depth(),
            self.spec_excused() == pre.spec_excused(),
            self.spec_internal() == pre.spec_internal() + 1,
            self.spec_deepest() == pre.spec_deepest(),
        ensures
            self.inv(),
    {
        let n = self.spec_num_shapes() as int;
        let tn = t.node as int;
        let oldlen = pre.spec_nodes().len() as int;
        assert(pre.open_tasks().last() == t);
        assert(pre.task_consistent(t));
        assert(n > 0) by {
            if n == 0 {
                assert(pre.open_tasks().len() == 0);
            }
        }
        assert forall|k: int|
            0 <= k < self.open_tasks().len() implies (#[trigger] self.open_tasks()[k]).depth
            <= self.spec_max_depth() by {
            if k < pre.spec_stack().len() {
                assert(self.open_tasks()[k] == pre.open_tasks()[k]);
            }
        }
        // The budget of further splits pays for the fresh internal node.
        assert((pre.spec_stack().push(t)).drop_last() =~= pre.spec_stack());
        assert(pre.open_tasks() == pre.spec_stack().push(t));
        assert(split_budget(pre.open_tasks()) == split_budget(pre.spec_stack()) + t.count - 1);
        assert((pre.spec_stack().push(rt)).drop_last() =~= pre.spec_stack());
        assert(split_budget(pre.spec_stack().push(rt)) == split_budget(pre.spec_stack())
            + rt.count - 1);
        assert((pre.spec_stack().push(rt).push(lt)).drop_last() =~= pre.spec_stack().push(rt));
        assert(split_budget(pre.spec_stack().push(rt).push(lt)) == split_budget(
            pre.spec_stack().push(rt),
        ) + lt.count - 1);
        assert(self.open_tasks() == pre.spec_stack().push(rt).push(lt));
        // Old open tasks never share t's node, and sit below the old
        // node array length.
        assert forall|k: int|
            0 <= k < pre.spec_stack().len() implies (#[trigger] pre.spec_stack()[k]).node != t.node
            && (pre.spec_stack()[k].node as int) < oldlen by {
            assert(pre.open_tasks()[k] == pre.spec_stack()[k]);
            assert(pre.open_tasks()[pre.open_tasks().len() - 1] == t);
            assert(pre.task_consistent(pre.open_tasks()[k]));
        }
        // Node references stay in bounds.
        assert(t.first + t.count <= n);
        assert forall|j: int|
            0 <= j < self.spec_nodes().len() implies {
            if (#[trigger] self.spec_nodes()[j]).count > 0 {
                self.spec_nodes()[j].left_child + self.spec_nodes()[j].count <= n
            } else {
                self.spec_nodes()[j].left_child + 1 < self.spec_nodes().len()
            }
        } by {
            if j < oldlen && j != tn {
                assert(self.spec_nodes()[j] == pre.spec_nodes()[j]);
                assert(nodes_in_bounds(pre.spec_nodes(), n));
            }
        }
        // The tree structure: the two fresh nodes hang off t's node, and
        // nothing else changed hands.
        assert forall|m: int|
            1 <= m < self.spec_nodes().len() implies #[trigger] has_parent(
            self.spec_nodes(),
            m,
        ) by {
            if m < oldlen {
                assert(has_parent(pre.spec_nodes(), m));
                let j = choose|j: int| #[trigger] is_child_of(pre.spec_nodes(), m, j);
                assert(pre.spec_nodes()[tn].count == t.count);
                assert(j != tn);
                assert(is_child_of(self.spec_nodes(), m, j));
            } else {
                assert(is_child_of(self.spec_nodes(), m, tn));
            }
        }
        assert forall|m: int, j1: int, j2: int|
            #[trigger] is_child_of(self.spec_nodes(), m, j1) && #[trigger] is_child_of(
                self.spec_nodes(),
                m,
                j2,
            ) implies j1 == j2 by {
            assert forall|j: int|
                #[trigger] is_child_of(self.spec_nodes(), m, j) implies (j == tn && oldlen <= m
                    <= oldlen + 1) || (j != tn && j < oldlen && is_child_of(pre.spec_nodes(), m, j)
                    && m < oldlen) by {
                if j == tn {
                    assert(self.spec_nodes()[tn].left_child == lt.node);
                } else {
                    assert(j < oldlen || self.spec_nodes()[j].count > 0);
                    assert(is_child_of(pre.spec_nodes(), m, j));
                    assert(nodes_in_bounds(pre.spec_nodes(), n));
                    assert(pre.spec_nodes()[j].left_child + 1 < oldlen);
                }
            }
        }
        // The leaf ranges still tile the index array.
        assert forall|p: int|
            0 <= p < n implies #[trigger] covered_by_some_leaf(self.spec_nodes(), p) by {
            assert(covered_by_some_leaf(pre.spec_nodes(), p));
            let j = choose|j: int|
                0 <= j < pre.spec_nodes().len() && leaf_covers(#[trigger] pre.spec_nodes()[j], p);
            if j == tn {
                if p < t.first + lt.count {
                    assert(leaf_covers(self.spec_nodes()[oldlen], p));
                } else {
                    assert(leaf_covers(self.spec_nodes()[oldlen + 1], p));
                }
            } else {
                assert(leaf_covers(self.spec_nodes()[j], p));
            }
        }
        assert forall|p: int, j1: int, j2: int|
            0 <= j1 < self.spec_nodes().len() && 0 <= j2 < self.spec_nodes().len()
                && #[trigger] leaf_covers(self.spec_nodes()[j1], p) && #[trigger] leaf_covers(
                self.spec_nodes()[j2],
                p,
            ) implies j1 == j2 by {
            let m1 = if j1 >= oldlen { tn } else { j1 };
            let m2 = if j2 >= oldlen { tn } else { j2 };
            assert(leaf_covers(pre.spec_nodes()[m1], p));
            assert(leaf_covers(pre.spec_nodes()[m2], p));
            assert(m1 == m2);
            if j1 >= oldlen && j2 >= oldlen && j1 != j2 {
                assert(false);
            }
        }
        // Open tasks describe their nodes truthfully and stay distinct.
        assert forall|k: int|
            0 <= k < self.open_tasks().len() implies self.task_consistent(
            #[trigger] self.open_tasks()[k],
        ) by {
            if k < pre.spec_stack().len() {
                assert(self.open_tasks()[k] == pre.spec_stack()[k]);
                assert(pre.open_tasks()[k] == pre.spec_stack()[k]);
                assert(pre.task_consistent(pre.spec_stack()[k]));
            } else if k == pre.spec_stack().len() {
                assert(self.open_tasks()[k] == rt);
            } else {
                assert(self.open_tasks()[k] == lt);
            }
        }
        assert forall|k1: int, k2: int|
            0 <= k1 < self.open_tasks().len() && 0 <= k2 < self.open_tasks().len() && k1 != k2
                implies (#[trigger] self.open_tasks()[k1]).node
            != (#[trigger] self.open_tasks()[k2]).node by {
            let sl = pre.spec_stack().len() as int;
            assert(forall|k: int|
                0 <= k < sl ==> #[trigger] self.open_tasks()[k] == pre.open_tasks()[k]);
            assert(self.open_tasks()[sl] == rt);
            assert(self.open_tasks()[sl + 1] == lt);
        }
        // Every decided leaf is within capacity or excused.
        assert forall|j: int|
            0 <= j < self.spec_nodes().len() && (#[trigger] self.spec_nodes()[j]).count > 0
                && !self.is_open_node(j) implies self.spec_nodes()[j].count
            <= self.spec_max_shapes() || self.spec_excused().contains(j) by {
            let sl = pre.spec_stack().len() as int;
            if j == oldlen {
                assert(self.open_tasks()[sl + 1].node == j);
                assert(false);
            } else if j == oldlen + 1 {
                assert(self.open_tasks()[sl].node == j);
                assert(false);
            } else if j != tn {
                assert(self.spec_nodes()[j] == pre.spec_nodes()[j]);
                if pre.is_open_node(j) {
                    let k = choose|k: int|
                        0 <= k < pre.open_tasks().len() && (#[trigger] pre.open_tasks()[k]).node
                            == j;
                    if k < pre.open_tasks().len() - 1 {
                        assert(pre.open_tasks()[k] == pre.spec_stack()[k]);
                        assert(self.open_tasks()[k].node == j);
                        assert(false);
                    } else {
                        assert(j == t.node);
                        assert(false);
                    }
                }
                assert(pre.spec_nodes()[j].count <= pre.spec_max_shapes()
                    || pre.spec_excused().contains(j));
            }
        }
    }

    /// Close construction: hand over the finished hierarchy.
    ///
    /// Fails exactly when the builder was started over no shapes. The
    /// result is well formed, its recorded depth is the deepest decided
    /// leaf, and every leaf holds at most the configured capacity unless
    /// the builder excused it (depth cap, refused split, or degenerate
    /// partition).
    pub fn finish(self) -> (r: Result<Bvh, GeodesicError>)
        requires
            self.inv(),
            self.done(),
        ensures
            self.spec_num_shapes() == 0 ==> r == Err::<Bvh, GeodesicError>(
                GeodesicError::InvalidBvh(crate::errors::BvhError::EmptyGeometry),
            ),
            self.spec_num_shapes() > 0 ==> (r matches Ok(bvh) && bvh.spec_indices()
                == self.spec_indices() && bvh.spec_nodes() == self.spec_nodes()
                && bvh.spec_depth() == self.spec_deepest() && bvh.spec_depth()
                <= self.spec_max_depth() && bvh.well_formed()
                && bvh.spec_nodes().len() <= 2 * self.spec_num_shapes() - 1 && forall|j: int|
                0 <= j < bvh.spec_nodes().len() && (#[trigger] bvh.spec_nodes()[j]).count > 0
                    ==> bvh.spec_nodes()[j].count <= self.spec_max_shapes()
                    || self.spec_excused().contains(j)),
    {
        let ghost pre = self;
        let BvhBuilder { indices, nodes, deepest, .. } = self;
        let node_count = nodes.len();
        proof {
            assert(nodes@.len() == node_count as int);
        }
        proof {
            if pre.spec_num_shapes() > 0 {
                assert(split_budget(pre.open_tasks()) == 0);
                lemma_split_budget_nonneg(pre.open_tasks());
                assert forall|j: int|
                    0 <= j < pre.spec_nodes().len() && (#[trigger] pre.spec_nodes()[j]).count > 0
                        implies pre.spec_nodes()[j].count <= pre.spec_max_shapes()
                    || pre.spec_excused().contains(j) by {
                    assert(!pre.is_open_node(j));
                }
            }
        }
        Bvh::construct_directly(indices, nodes, deepest)
    }
}

/// Exchanging two positions of a sequence leaves its multiset of
/// elements unchanged.
proof fn lemma_swap_multiset(s: Seq<usize>, i: int, j: int)
    requires
        0 <= i < s.len(),
        0 <= j < s.len(),
    ensures
        s.update(i, s[j]).update(j, s[i]).to_multiset() == s.to_multiset(),
{
    broadcast use group_to_multiset_ensures, to_multiset_update, group_multiset_axioms;

    let s1 = s.update(i, s[j]);
    let s2 = s1.update(j, s[i]);
    assert(s.contains(s[i]));
    assert(s.contains(s[j]));
    assert(s1[j] == s[j]);
    assert(s1.to_multiset() == s.to_multiset().insert(s[j]).remove(s[i]));
    assert(s2.to_multiset() == s1.to_multiset().insert(s[i]).remove(s[j]));
    assert(s2.to_multiset() =~= s.to_multiset());
}

} // verus!
