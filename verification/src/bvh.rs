//! Flat bounding-volume-hierarchy structure.
//!
//! The hierarchy is a contiguous node array with child adjacency: an
//! internal node holds the index of its left child and the right child
//! sits directly after it. A leaf holds a count and the start of its
//! range in the permuted index array; the primitive array itself is never
//! reordered, traversal indirects through the stored indices.

use vstd::prelude::*;
use vstd::seq_lib::group_to_multiset_ensures;

use crate::errors::{BvhError, GeodesicError};
use crate::geometry::Aabb;

verus! {

/// One node of the hierarchy.
///
/// `count > 0` marks a leaf holding `count` indices starting at
/// `left_child` in the index array; `count == 0` marks an internal node
/// whose children sit at `left_child` and `left_child + 1` in the node
/// array.
#[derive(Debug, Clone, Copy, PartialEq, Eq)]
pub struct BvhNode {
    /// Bounding box of everything below this node.
    pub aabb: Aabb,
    /// Left child index, or the start of the leaf's index range.
    pub left_child: usize,
    /// Number of shapes in the leaf, or zero for an internal node.
    pub count: usize,
}

/// The identity sequence `0, 1, …, n-1` of indices.
pub open spec fn identity_permutation(n: int) -> Seq<usize> {
    Seq::new(n as nat, |i: int| i as usize)
}

/// `s` holds exactly the indices `0, …, n-1`, each once, in some order.
pub open spec fn is_permutation_of(s: Seq<usize>, n: int) -> bool {
    s.to_multiset() == identity_permutation(n).to_multiset()
}

/// The node, if it is a leaf, covers position `p` of the index array.
pub open spec fn leaf_covers(node: BvhNode, p: int) -> bool {
    node.count > 0 && node.left_child <= p < node.left_child + node.count
}

/// Every node's references stay in bounds: a leaf's index range lies
/// within the index array, an internal node's children lie within the
/// node array.
pub open spec fn nodes_in_bounds(nodes: Seq<BvhNode>, num_indices: int) -> bool {
    forall|j: int|
        0 <= j < nodes.len() ==> {
            if (#[trigger] nodes[j]).count > 0 {
                nodes[j].left_child + nodes[j].count <= num_indices
            } else {
                nodes[j].left_child + 1 < nodes.len()
            }
        }
}

/// Node `m` is a child of the internal node `j`.
pub open spec fn is_child_of(nodes: Seq<BvhNode>, m: int, j: int) -> bool {
    &&& 0 <= j < nodes.len()
    &&& nodes[j].count == 0
    &&& (m == nodes[j].left_child || m == nodes[j].left_child + 1)
}

/// Some internal node has `m` as a child.
pub open spec fn has_parent(nodes: Seq<BvhNode>, m: int) -> bool {
    exists|j: int| #[trigger] is_child_of(nodes, m, j)
}

/// The node array is a tree hanging off node zero: child links point
/// forward, and every node but the root is the child of exactly one
/// internal node.
pub open spec fn parent_structure(nodes: Seq<BvhNode>) -> bool {
    &&& forall|j: int|
        0 <= j < nodes.len() && (#[trigger] nodes[j]).count == 0 ==> j < nodes[j].left_child
    &&& forall|m: int| 1 <= m < nodes.len() ==> #[trigger] has_parent(nodes, m)
    &&& forall|m: int, j1: int, j2: int|
        #[trigger] is_child_of(nodes, m, j1) && #[trigger] is_child_of(nodes, m, j2) ==> j1 == j2
}

/// Some leaf among `nodes` covers position `p` of the index array.
pub open spec fn covered_by_some_leaf(nodes: Seq<BvhNode>, p: int) -> bool {
    exists|j: int| 0 <= j < nodes.len() && leaf_covers(#[trigger] nodes[j], p)
}

/// The leaf ranges tile the index array: every position is covered by
/// exactly one leaf.
pub open spec fn leaves_tile(nodes: Seq<BvhNode>, num_indices: int) -> bool {
    &&& forall|p: int| 0 <= p < num_indices ==> #[trigger] covered_by_some_leaf(nodes, p)
    &&& forall|p: int, j1: int, j2: int|
        0 <= j1 < nodes.len() && 0 <= j2 < nodes.len() && #[trigger] leaf_covers(nodes[j1], p)
            && #[trigger] leaf_covers(nodes[j2], p) ==> j1 == j2
}

/// Bounding volume hierarchy: a permuted index array, a flat node array
/// whose root is node zero, and the depth reached during construction.
#[derive(Debug)]
pub struct Bvh {
    /// Permuted indices of the shapes, grouped by leaf.
    indices: Vec<usize>,
    /// Flat node array; node zero is the root.
    nodes: Vec<BvhNode>,
    /// Depth of the tree.
    depth: usize,
}

impl Bvh {
    /// The index array, as a sequence.
    pub closed spec fn spec_indices(&self) -> Seq<usize> {
        self.indices@
    }

    /// The node array, as a sequence.
    pub closed spec fn spec_nodes(&self) -> Seq<BvhNode> {
        self.nodes@
    }

    /// The recorded tree depth.
    pub closed spec fn spec_depth(&self) -> int {
        self.depth as int
    }

    /// A structurally sound hierarchy: some geometry, an index array that
    /// is a permutation of `0..n`, every node reference in bounds, and
    /// leaf ranges that tile the index array.
    pub open spec fn well_formed(&self) -> bool {
        &&& self.spec_indices().len() > 0
        &&& self.spec_indices().len() <= usize::MAX
        &&& self.spec_nodes().len() > 0
        &&& self.spec_nodes().len() <= usize::MAX
        &&& is_permutation_of(self.spec_indices(), self.spec_indices().len() as int)
        &&& nodes_in_bounds(self.spec_nodes(), self.spec_indices().len() as int)
        &&& leaves_tile(self.spec_nodes(), self.spec_indices().len() as int)
        &&& parent_structure(self.spec_nodes())
    }

    /// Construct a hierarchy directly from its parts.
    ///
    /// Fails exactly when the index array is empty, and otherwise when
    /// the node array is empty; nothing further is checked here.
    pub fn construct_directly(indices: Vec<usize>, nodes: Vec<BvhNode>, depth: usize) -> (r: Result<
        Bvh,
        GeodesicError,
    >)
        ensures
            indices@.len() == 0 ==> r == Err::<Bvh, GeodesicError>(
                GeodesicError::InvalidBvh(BvhError::EmptyGeometry),
            ),
            indices@.len() > 0 && nodes@.len() == 0 ==> r == Err::<Bvh, GeodesicError>(
                GeodesicError::InvalidBvh(BvhError::EmptyNodes),
            ),
            indices@.len() > 0 && nodes@.len() > 0 ==> (r matches Ok(bvh) && bvh.spec_indices()
                == indices@ && bvh.spec_nodes() == nodes@ && bvh.spec_depth() == depth),
    {
        if indices.len() == 0 {
            return Err(GeodesicError::InvalidBvh(BvhError::EmptyGeometry));
        }
        if nodes.len() == 0 {
            return Err(GeodesicError::InvalidBvh(BvhError::EmptyNodes));
        }
        Ok(Bvh { indices, nodes, depth })
    }

    /// The depth of the tree.
    pub fn depth(&self) -> (r: usize)
        ensures
            r == self.spec_depth(),
    {
        self.depth
    }

    /// The permuted index array.
    pub fn indices(&self) -> (r: &Vec<usize>)
        ensures
            r@ == self.spec_indices(),
    {
        &self.indices
    }

    /// The flat node array.
    pub fn nodes(&self) -> (r: &Vec<BvhNode>)
        ensures
            r@ == self.spec_nodes(),
    {
        &self.nodes
    }

    /// Law: in a well-formed hierarchy two positions of the index array
    /// never name the same shape.
    ///
    /// Together with the tiling of the leaf ranges this says that a
    /// traversal scanning every leaf range once tests every shape
    /// exactly once — the structural half of the claim that a
    /// hierarchy query equals the brute-force scan over the shapes.
    pub proof fn lemma_indices_distinct(&self)
        requires
            self.well_formed(),
        ensures
            forall|p1: int, p2: int|
                0 <= p1 < self.spec_indices().len() && 0 <= p2 < self.spec_indices().len() && p1
                    != p2 ==> (#[trigger] self.spec_indices()[p1]) != (
                #[trigger] self.spec_indices()[p2]),
    {
        broadcast use group_to_multiset_ensures;

        let s = self.spec_indices();
        let n = s.len() as int;
        let ids = identity_permutation(n);
        assert(ids.no_duplicates()) by {
            assert forall|i: int, j: int|
                0 <= i < ids.len() && 0 <= j < ids.len() && i != j implies ids[i] != ids[j] by {
                assert(ids[i] == i as usize && ids[j] == j as usize);
            }
        }
        ids.lemma_multiset_has_no_duplicates();
        assert forall|x: usize| s.to_multiset().contains(x) implies s.to_multiset().count(x)
            == 1 by {
            assert(ids.to_multiset().count(x) == s.to_multiset().count(x));
        }
        s.lemma_multiset_has_no_duplicates_conv();
    }

    /// Law: every shape index is named inside some leaf's range of the
    /// index array.
    ///
    /// No shape is lost: for each shape there is a leaf whose range
    /// holds a position naming it (and by the tiling of `well_formed`
    /// that position lies in no other leaf).
    pub proof fn lemma_every_shape_in_a_leaf(&self, s: usize)
        requires
            self.well_formed(),
            (s as int) < self.spec_indices().len(),
        ensures
            exists|j: int, p: int|
                0 <= j < self.spec_nodes().len() && 0 <= p < self.spec_indices().len()
                    && #[trigger] leaf_covers(self.spec_nodes()[j], p) && self.spec_indices()[p]
                    == s,
    {
        broadcast use group_to_multiset_ensures;

        let ids = identity_permutation(self.spec_indices().len() as int);
        assert(ids[s as int] == s);
        assert(ids.contains(s));
        assert(self.spec_indices().to_multiset().count(s) > 0);
        assert(self.spec_indices().contains(s));
        let p = choose|p: int|
            0 <= p < self.spec_indices().len() && self.spec_indices()[p] == s;
        assert(covered_by_some_leaf(self.spec_nodes(), p));
        let j = choose|j: int|
            0 <= j < self.spec_nodes().len() && leaf_covers(#[trigger] self.spec_nodes()[j], p);
        assert(0 <= j < self.spec_nodes().len() && 0 <= p < self.spec_indices().len()
            && leaf_covers(self.spec_nodes()[j], p) && self.spec_indices()[p] == s);
    }

    /// Law: whatever holds of the root and is passed from an internal
    /// node to both its children holds of every node.
    ///
    /// This is the induction principle of the tree: a traversal that
    /// starts at node zero and descends through `left_child` and
    /// `left_child + 1` visits every node — no leaf is stranded.
    pub proof fn lemma_root_reaches_all(&self, q: spec_fn(int) -> bool)
        requires
            self.well_formed(),
            q(0),
            forall|j: int|
                0 <= j < self.spec_nodes().len() && (#[trigger] self.spec_nodes()[j]).count == 0
                    && q(j) ==> q(self.spec_nodes()[j].left_child as int) && q(
                    self.spec_nodes()[j].left_child + 1,
                ),
        ensures
            forall|m: int| 0 <= m < self.spec_nodes().len() ==> #[trigger] q(m),
    {
        assert forall|m: int| 0 <= m < self.spec_nodes().len() implies #[trigger] q(m) by {
            lemma_reach(self.spec_nodes(), q, m);
        }
    }

    /// The bounding box of the whole hierarchy: the root's box.
    pub fn aabb(&self) -> (r: Aabb)
        requires
            self.spec_nodes().len() > 0,
        ensures
            r == self.spec_nodes()[0].aabb,
    {
        self.nodes[0].aabb
    }
}

/// Strong induction over node indices: a node inherits `q` from its
/// parent, whose index is strictly smaller.
proof fn lemma_reach(nodes: Seq<BvhNode>, q: spec_fn(int) -> bool, m: int)
    requires
        parent_structure(nodes),
        q(0),
        forall|j: int|
            0 <= j < nodes.len() && (#[trigger] nodes[j]).count == 0 && q(j) ==> q(
                nodes[j].left_child as int,
            ) && q(nodes[j].left_child + 1),
        0 <= m < nodes.len(),
    ensures
        q(m),
    decreases m,
{
    if m > 0 {
        assert(has_parent(nodes, m));
        let j = choose|j: int| #[trigger] is_child_of(nodes, m, j);
        assert(j < nodes[j].left_child <= m);
        lemma_reach(nodes, q, j);
    }
}

} // verus!
