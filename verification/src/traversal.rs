//! Walking a hierarchy, one probe at a time.
//!
//! The walk is a state machine over the structural side of a query: it
//! owns the visit stack, decides which node or shape to test next, and
//! folds the reported distances. The caller owns the scalar side — it
//! answers a node probe with the outcome of the ray/box test, and a
//! shape probe with the hit distance (as binary64 bits) or a miss. The
//! machine proves, for every answer the caller can give, that a node is
//! probed exactly when it is the root or the child of a node answered
//! hit, that every position of every leaf answered hit is probed
//! exactly once, that a subtree is skipped only under a node answered
//! missed, and that the final result is a reported hit of minimal
//! distance — the structural content of both query modes: the
//! closest-hit result comes from `finish`, and an any-hit query reads
//! `found_within` (stopping as soon as it answers true).
//!
//! A run looks like: `start`, then while `next_probe` yields a probe,
//! answer it with `answer_node` or `answer_shape`; close with `finish`,
//! or stop early once `found_within` answers the question at hand.

use vstd::prelude::*;

use crate::bvh::{is_child_of, leaf_covers, nodes_in_bounds, Bvh, BvhNode};
use crate::fp_bits::{
    f64_is_nan, f64_le, f64_lt, lemma_f64_le_total, lemma_f64_le_transitive,
    lemma_f64_lt_transitive, F64_MAX_BITS,
};

verus! {

/// What the walk asks the caller to test next.
#[derive(Debug, Clone, Copy, PartialEq, Eq, Structural)]
pub enum Probe {
    /// Test the ray against the bounding box of this node.
    Node { node: usize },
    /// Intersect the ray with this shape, found at this position of the
    /// index array.
    Shape { shape: usize, position: usize },
}

/// One entry of the visit stack: a node awaiting its box test, or a
/// position of the index array awaiting its shape test.
#[derive(Debug, Clone, Copy, PartialEq, Eq, Structural)]
pub enum Step {
    /// A node whose box is still to be tested.
    Node(usize),
    /// A position whose shape is still to be tested.
    Position(usize),
}

/// One reported hit: the position probed, the shape found there, and
/// the reported distance bits.
pub ghost struct ReportedHit {
    /// Position of the index array that was probed.
    pub position: int,
    /// The shape at that position.
    pub shape: int,
    /// The distance the caller reported, as binary64 bits.
    pub distance: u64,
}

/// Walk of a [`Bvh`]; see the module description.
pub struct Traversal<'a> {
    /// The hierarchy being walked.
    bvh: &'a Bvh,
    /// Steps still to be taken, next on top.
    stack: Vec<Step>,
    /// The probe handed out by `next_probe` and not yet answered.
    pending: Option<Step>,
    /// The best hit so far: shape and distance bits of the first
    /// reported hit strictly below everything reported before it and
    /// below the largest finite value.
    nearest: Option<(usize, u64)>,
    /// The smallest non-NaN reported distance, for cutoff queries.
    least: Option<u64>,
    /// Every node answer so far.
    box_answers: Ghost<Map<int, bool>>,
    /// Every position probed so far, in probe order.
    probed: Ghost<Seq<int>>,
    /// Every reported hit so far, in report order.
    hits: Ghost<Seq<ReportedHit>>,
}

impl<'a> Traversal<'a> {
    /// The hierarchy being walked.
    pub closed spec fn spec_bvh(&self) -> Bvh {
        *self.bvh
    }

    /// Steps still to be taken.
    pub closed spec fn spec_stack(&self) -> Seq<Step> {
        self.stack@
    }

    /// The probe handed out and not yet answered.
    pub closed spec fn spec_pending(&self) -> Option<Step> {
        self.pending
    }

    /// The best hit so far.
    pub closed spec fn spec_nearest(&self) -> Option<(usize, u64)> {
        self.nearest
    }

    /// The smallest non-NaN reported distance.
    pub closed spec fn spec_least(&self) -> Option<u64> {
        self.least
    }

    /// Every node answer so far.
    pub closed spec fn spec_box_answers(&self) -> Map<int, bool> {
        self.box_answers@
    }

    /// Every position probed so far.
    pub closed spec fn spec_probed(&self) -> Seq<int> {
        self.probed@
    }

    /// Every reported hit so far.
    pub closed spec fn spec_hits(&self) -> Seq<ReportedHit> {
        self.hits@
    }

    /// The node array of the hierarchy.
    pub open spec fn nodes(&self) -> Seq<BvhNode> {
        self.spec_bvh().spec_nodes()
    }

    /// The length of the index array.
    pub open spec fn num_positions(&self) -> int {
        self.spec_bvh().spec_indices().len() as int
    }

    /// Node `j` has been answered.
    pub open spec fn answered(&self, j: int) -> bool {
        self.spec_box_answers().dom().contains(j)
    }

    /// Node `j` has been answered hit.
    pub open spec fn answered_hit(&self, j: int) -> bool {
        self.answered(j) && self.spec_box_answers()[j]
    }

    /// Every step not yet taken: the stack and the pending probe.
    pub open spec fn open_steps(&self) -> Seq<Step> {
        match self.spec_pending() {
            Some(s) => self.spec_stack().push(s),
            None => self.spec_stack(),
        }
    }

    /// A step may stand open only while its ground stands: a node step
    /// for an unanswered node that is the root or the child of a node
    /// answered hit; a position step for an unprobed position of a leaf
    /// answered hit.
    pub open spec fn step_ok(&self, s: Step) -> bool {
        match s {
            Step::Node(j) => {
                &&& (j as int) < self.nodes().len()
                &&& !self.answered(j as int)
                &&& (j == 0 || exists|i: int|
                    is_child_of(self.nodes(), j as int, i) && #[trigger] self.answered_hit(i))
            },
            Step::Position(p) => {
                &&& (p as int) < self.num_positions()
                &&& !self.spec_probed().contains(p as int)
                &&& exists|j: int|
                    0 <= j < self.nodes().len() && leaf_covers(
                        #[trigger] self.nodes()[j],
                        p as int,
                    ) && self.answered_hit(j)
            },
        }
    }

    /// The distance every new report is measured against: the best so
    /// far, or the largest finite value before any hit.
    pub open spec fn current_bound(&self) -> u64 {
        match self.spec_nearest() {
            Some((_, d)) => d,
            None => F64_MAX_BITS,
        }
    }

    /// The walk invariant; every operation preserves it.
    pub open spec fn inv(&self) -> bool {
        &&& self.spec_bvh().well_formed()
        &&& forall|k: int|
            0 <= k < self.open_steps().len() ==> self.step_ok(#[trigger] self.open_steps()[k])
        &&& forall|k1: int, k2: int|
            0 <= k1 < self.open_steps().len() && 0 <= k2 < self.open_steps().len() && k1 != k2
                ==> (#[trigger] self.open_steps()[k1]) != (#[trigger] self.open_steps()[k2])
        &&& forall|j: int|
            #[trigger] self.answered(j) ==> 0 <= j < self.nodes().len() && (j == 0 || exists|i: int|
                is_child_of(self.nodes(), j, i) && #[trigger] self.answered_hit(i))
        &&& forall|j: int, c: int|
            self.answered_hit(j) && self.nodes()[j].count == 0 && #[trigger] is_child_of(
                self.nodes(),
                c,
                j,
            ) ==> self.answered(c) || self.open_steps().contains(Step::Node(c as usize))
        &&& forall|j: int, p: int|
            self.answered_hit(j) && #[trigger] leaf_covers(self.nodes()[j], p)
                ==> self.spec_probed().contains(p) || self.open_steps().contains(
                Step::Position(p as usize),
            )
        &&& (self.answered(0) || self.open_steps().contains(Step::Node(0usize)))
        &&& self.spec_probed().no_duplicates()
        &&& forall|k: int|
            0 <= k < self.spec_probed().len() ==> 0 <= #[trigger] self.spec_probed()[k]
                < self.num_positions() && exists|j: int|
                0 <= j < self.nodes().len() && leaf_covers(
                    #[trigger] self.nodes()[j],
                    self.spec_probed()[k],
                ) && self.answered_hit(j)
        &&& forall|k: int|
            0 <= k < self.spec_hits().len() ==> {
                let h = #[trigger] self.spec_hits()[k];
                &&& 0 <= h.position < self.num_positions()
                &&& h.shape == self.spec_bvh().spec_indices()[h.position]
                &&& self.spec_probed().contains(h.position)
            }
        &&& (self.spec_nearest() matches Some((s, d)) ==> f64_lt(d, F64_MAX_BITS) && (exists|k: int|
            0 <= k < self.spec_hits().len() && (#[trigger] self.spec_hits()[k]).shape == s as int
                && self.spec_hits()[k].distance == d) && forall|k: int|
            0 <= k < self.spec_hits().len() ==> !f64_lt(
                (#[trigger] self.spec_hits()[k]).distance,
                d,
            ))
        &&& (self.spec_nearest() is None ==> forall|k: int|
            0 <= k < self.spec_hits().len() ==> !f64_lt(
                (#[trigger] self.spec_hits()[k]).distance,
                F64_MAX_BITS,
            ))
        &&& (self.spec_least() matches Some(l) ==> !f64_is_nan(l) && (exists|k: int|
            0 <= k < self.spec_hits().len() && (#[trigger] self.spec_hits()[k]).distance == l)
            && forall|k: int|
            0 <= k < self.spec_hits().len() && !f64_is_nan(
                (#[trigger] self.spec_hits()[k]).distance,
            ) ==> f64_le(l, self.spec_hits()[k].distance))
        &&& (self.spec_least() is None ==> forall|k: int|
            0 <= k < self.spec_hits().len() ==> f64_is_nan(
                (#[trigger] self.spec_hits()[k]).distance,
            ))
    }

    /// Every probe has been answered and nothing is left to take.
    pub open spec fn done(&self) -> bool {
        self.spec_stack().len() == 0 && self.spec_pending() is None
    }

    /// `step_ok` carries over between states that agree on the node
    /// array, the node answers and the probed positions.
    proof fn lemma_step_ok_transfer(&self, pre: &Traversal<'a>, s: Step)
        requires
            pre.step_ok(s),
            self.nodes() == pre.nodes(),
            self.spec_box_answers() == pre.spec_box_answers(),
            self.num_positions() == pre.num_positions(),
            self.spec_probed() == pre.spec_probed(),
        ensures
            self.step_ok(s),
    {
        match s {
            Step::Node(m) => {
                if m != 0 {
                    let i = choose|i: int|
                        is_child_of(pre.nodes(), m as int, i) && #[trigger] pre.answered_hit(i);
                    assert(is_child_of(self.nodes(), m as int, i) && self.answered_hit(i));
                }
            },
            Step::Position(q) => {
                let j = choose|j: int|
                    0 <= j < pre.nodes().len() && leaf_covers(#[trigger] pre.nodes()[j], q as int)
                        && pre.answered_hit(j);
                assert(leaf_covers(self.nodes()[j], q as int) && self.answered_hit(j));
            },
        }
    }

    /// The answered-node pedigree carries over between states that
    /// agree on the node array and the node answers.
    proof fn lemma_answers_transfer(&self, pre: &Traversal<'a>)
        requires
            pre.inv(),
            self.nodes() == pre.nodes(),
            self.spec_box_answers() == pre.spec_box_answers(),
        ensures
            forall|j: int|
                #[trigger] self.answered(j) ==> 0 <= j < self.nodes().len() && (j == 0
                    || exists|i: int|
                    is_child_of(self.nodes(), j, i) && #[trigger] self.answered_hit(i)),
    {
        assert forall|j: int|
            #[trigger] self.answered(j) implies 0 <= j < self.nodes().len() && (j == 0
            || exists|i: int|
            is_child_of(self.nodes(), j, i) && #[trigger] self.answered_hit(i)) by {
            assert(pre.answered(j));
            if j != 0 {
                let i = choose|i: int|
                    is_child_of(pre.nodes(), j, i) && #[trigger] pre.answered_hit(i);
                assert(is_child_of(self.nodes(), j, i) && self.answered_hit(i));
            }
        }
    }

    /// The report-log conjuncts of the invariant carry over between
    /// states that agree on the logs and have not lost any probed
    /// position.
    proof fn lemma_logs_transfer(&self, pre: &Traversal<'a>)
        requires
            pre.inv(),
            self.spec_bvh() == pre.spec_bvh(),
            self.spec_hits() == pre.spec_hits(),
            self.spec_nearest() == pre.spec_nearest(),
            self.spec_least() == pre.spec_least(),
            forall|x: int|
                pre.spec_probed().contains(x) ==> #[trigger] self.spec_probed().contains(x),
        ensures
            forall|k: int|
                0 <= k < self.spec_hits().len() ==> {
                    let h = #[trigger] self.spec_hits()[k];
                    &&& 0 <= h.position < self.num_positions()
                    &&& h.shape == self.spec_bvh().spec_indices()[h.position]
                    &&& self.spec_probed().contains(h.position)
                },
            self.spec_nearest() matches Some((s, d)) ==> f64_lt(d, F64_MAX_BITS) && (exists|k: int|
                0 <= k < self.spec_hits().len() && (#[trigger] self.spec_hits()[k]).shape
                    == s as int && self.spec_hits()[k].distance == d) && forall|k: int|
                0 <= k < self.spec_hits().len() ==> !f64_lt(
                    (#[trigger] self.spec_hits()[k]).distance,
                    d,
                ),
            self.spec_nearest() is None ==> forall|k: int|
                0 <= k < self.spec_hits().len() ==> !f64_lt(
                    (#[trigger] self.spec_hits()[k]).distance,
                    F64_MAX_BITS,
                ),
            self.spec_least() matches Some(l) ==> !f64_is_nan(l) && (exists|k: int|
                0 <= k < self.spec_hits().len() && (#[trigger] self.spec_hits()[k]).distance == l)
                && forall|k: int|
                0 <= k < self.spec_hits().len() && !f64_is_nan(
                    (#[trigger] self.spec_hits()[k]).distance,
                ) ==> f64_le(l, self.spec_hits()[k].distance),
            self.spec_least() is None ==> forall|k: int|
                0 <= k < self.spec_hits().len() ==> f64_is_nan(
                    (#[trigger] self.spec_hits()[k]).distance,
                ),
    {
        assert forall|k: int|
            0 <= k < self.spec_hits().len() implies {
            let h = #[trigger] self.spec_hits()[k];
            &&& 0 <= h.position < self.num_positions()
            &&& h.shape == self.spec_bvh().spec_indices()[h.position]
            &&& self.spec_probed().contains(h.position)
        } by {
            assert(self.spec_hits()[k] == pre.spec_hits()[k]);
            assert(pre.spec_probed().contains(pre.spec_hits()[k].position));
        }
        match pre.spec_nearest() {
            Some((s, d)) => {
                let k0 = choose|k: int|
                    0 <= k < pre.spec_hits().len() && (#[trigger] pre.spec_hits()[k]).shape
                        == s as int && pre.spec_hits()[k].distance == d;
                assert(self.spec_hits()[k0].shape == s as int && self.spec_hits()[k0].distance
                    == d);
                assert(forall|k: int|
                    0 <= k < self.spec_hits().len() ==> !f64_lt(
                        (#[trigger] self.spec_hits()[k]).distance,
                        d,
                    ));
            },
            None => {},
        }
        match pre.spec_least() {
            Some(l) => {
                let kl = choose|k: int|
                    0 <= k < pre.spec_hits().len() && (#[trigger] pre.spec_hits()[k]).distance
                        == l;
                assert(self.spec_hits()[kl].distance == l);
            },
            None => {},
        }
    }

    /// Start a walk at the root of the hierarchy.
    pub fn start(bvh: &'a Bvh) -> (r: Traversal<'a>)
        requires
            bvh.well_formed(),
        ensures
            r.inv(),
            r.spec_bvh() == *bvh,
            r.spec_stack() == seq![Step::Node(0usize)],
            r.spec_pending() is None,
            r.spec_nearest() is None,
            r.spec_least() is None,
            r.spec_box_answers() == Map::<int, bool>::empty(),
            r.spec_probed() == Seq::<int>::empty(),
            r.spec_hits() == Seq::<ReportedHit>::empty(),
    {
        let mut stack: Vec<Step> = Vec::new();
        stack.push(Step::Node(0));
        let r = Traversal {
            bvh,
            stack,
            pending: None,
            nearest: None,
            least: None,
            box_answers: Ghost(Map::empty()),
            probed: Ghost(Seq::empty()),
            hits: Ghost(Seq::empty()),
        };
        proof {
            assert(r.open_steps()[0] == Step::Node(0usize));
        }
        r
    }

    /// Hand out the next probe: the top of the visit stack. `None`
    /// exactly when nothing is left, which with no probe pending means
    /// the walk is done.
    #[verifier::rlimit(50)]
    pub fn next_probe(&mut self) -> (r: Option<Probe>)
        requires
            old(self).inv(),
            old(self).spec_pending() is None,
        ensures
            final(self).inv(),
            final(self).spec_bvh() == old(self).spec_bvh(),
            final(self).spec_nearest() == old(self).spec_nearest(),
            final(self).spec_least() == old(self).spec_least(),
            final(self).spec_box_answers() == old(self).spec_box_answers(),
            final(self).spec_probed() == old(self).spec_probed(),
            final(self).spec_hits() == old(self).spec_hits(),
            r is None ==> *final(self) == *old(self) && old(self).done(),
            old(self).spec_stack().len() > 0 ==> {
                let s = old(self).spec_stack().last();
                &&& final(self).spec_stack() == old(self).spec_stack().drop_last()
                &&& final(self).spec_pending() == Some(s)
                &&& r == Some(
                    match s {
                        Step::Node(j) => Probe::Node { node: j },
                        Step::Position(p) => Probe::Shape {
                            shape: old(self).spec_bvh().spec_indices()[p as int],
                            position: p,
                        },
                    },
                )
            },
    {
        let ghost pre = *self;
        if self.stack.len() == 0 {
            return None;
        }
        let step = self.stack.pop().unwrap();
        self.pending = Some(step);
        proof {
            assert(self.open_steps() =~= pre.open_steps());
            assert forall|k: int|
                0 <= k < self.open_steps().len() implies self.step_ok(
                #[trigger] self.open_steps()[k],
            ) by {
                assert(pre.step_ok(pre.open_steps()[k]));
                self.lemma_step_ok_transfer(&pre, self.open_steps()[k]);
            }
            self.lemma_answers_transfer(&pre);
            self.lemma_logs_transfer(&pre);
            if !pre.answered(0) {
                let k0 = choose|k: int|
                    0 <= k < pre.open_steps().len() && pre.open_steps()[k] == Step::Node(0usize);
                assert(self.open_steps()[k0] == Step::Node(0usize));
            }
            assert(self.spec_bvh().well_formed());
            assert(forall|k1: int, k2: int|
                0 <= k1 < self.open_steps().len() && 0 <= k2 < self.open_steps().len() && k1 != k2
                    ==> (#[trigger] self.open_steps()[k1]) != (#[trigger] self.open_steps()[k2]));
            assert forall|j: int, c: int|
                self.answered_hit(j) && self.nodes()[j].count == 0 && #[trigger] is_child_of(
                    self.nodes(),
                    c,
                    j,
                ) implies self.answered(c) || self.open_steps().contains(
                Step::Node(c as usize),
            ) by {
                assert(pre.answered_hit(j));
                if !pre.answered(c) {
                    assert(pre.open_steps().contains(Step::Node(c as usize)));
                }
            }
            assert forall|j: int, q: int|
                self.answered_hit(j) && #[trigger] leaf_covers(self.nodes()[j], q)
                    implies self.spec_probed().contains(q) || self.open_steps().contains(
                Step::Position(q as usize),
            ) by {
                assert(pre.answered_hit(j) && leaf_covers(pre.nodes()[j], q));
            }
            assert(self.spec_probed().no_duplicates());
            assert(forall|k: int|
                0 <= k < self.spec_probed().len() ==> 0 <= #[trigger] self.spec_probed()[k]
                    < self.num_positions());
            assert forall|k: int|
                0 <= k < self.spec_probed().len() implies exists|j: int|
                0 <= j < self.nodes().len() && leaf_covers(
                    #[trigger] self.nodes()[j],
                    #[trigger] self.spec_probed()[k],
                ) && self.answered_hit(j) by {
                let j = choose|j: int|
                    0 <= j < pre.nodes().len() && leaf_covers(
                        #[trigger] pre.nodes()[j],
                        pre.spec_probed()[k],
                    ) && pre.answered_hit(j);
                assert(leaf_covers(self.nodes()[j], self.spec_probed()[k]) && self.answered_hit(
                    j,
                ));
            }
        }
        match step {
            Step::Node(j) => Some(Probe::Node { node: j }),
            Step::Position(p) => {
                proof {
                    assert(pre.step_ok(pre.open_steps()[pre.open_steps().len() - 1]));
                }
                let shape = self.bvh.indices()[p];
                Some(Probe::Shape { shape, position: p })
            },
        }
    }

    /// Answer the pending shape probe: the reported hit distance (as
    /// binary64 bits), or `None` for a miss. The position is recorded as
    /// probed; a hit joins the report log and the running folds — it
    /// becomes the nearest exactly when it compares strictly below the
    /// current bound, and the least exactly when no smaller non-NaN
    /// distance was reported before.
    #[verifier::rlimit(100)]
    pub fn answer_shape(&mut self, distance: Option<u64>)
        requires
            old(self).inv(),
            old(self).spec_pending() matches Some(s) && s is Position,
        ensures
            final(self).inv(),
            final(self).spec_bvh() == old(self).spec_bvh(),
            final(self).spec_stack() == old(self).spec_stack(),
            final(self).spec_pending() is None,
            final(self).spec_box_answers() == old(self).spec_box_answers(),
            old(self).spec_pending() matches Some(s) && s matches Step::Position(p) ==> {
                &&& final(self).spec_probed() == old(self).spec_probed().push(p as int)
                &&& (distance is None ==> final(self).spec_hits() == old(self).spec_hits()
                    && final(self).spec_nearest() == old(self).spec_nearest() && final(self).spec_least() == old(self).spec_least())
                &&& (distance matches Some(d) ==> {
                    let shape = old(self).spec_bvh().spec_indices()[p as int];
                    &&& final(self).spec_hits() == old(self).spec_hits().push(
                        ReportedHit { position: p as int, shape: shape as int, distance: d },
                    )
                    &&& final(self).spec_nearest() == if f64_lt(d, old(self).current_bound()) {
                        Some((shape, d))
                    } else {
                        old(self).spec_nearest()
                    }
                    &&& final(self).spec_least() == if !f64_is_nan(d) && (old(self).spec_least()
                        is None || f64_le(d, old(self).spec_least().unwrap())) {
                        Some(d)
                    } else {
                        old(self).spec_least()
                    }
                })
            },
    {
        let ghost pre = *self;
        let step = self.pending.unwrap();
        let p = match step {
            Step::Position(p) => p,
            Step::Node(j) => j,  // unreachable under the precondition
        };
        self.pending = None;
        self.probed = Ghost(self.probed@.push(p as int));
        proof {
            assert(pre.open_steps()[pre.open_steps().len() - 1] == Step::Position(p));
            assert(pre.step_ok(pre.open_steps()[pre.open_steps().len() - 1]));
            assert(self.spec_probed() == pre.spec_probed().push(p as int));
            assert(self.spec_probed().contains(p as int)) by {
                assert(self.spec_probed()[pre.spec_probed().len() as int] == p as int);
            }
            assert forall|x: int| pre.spec_probed().contains(x) implies self.spec_probed().contains(
                x,
            ) by {
                let i = choose|i: int|
                    0 <= i < pre.spec_probed().len() && pre.spec_probed()[i] == x;
                assert(self.spec_probed()[i] == x);
            }
            self.lemma_shape_structure(&pre, p);
        }
        let d = match distance {
            None => {
                proof {
                    self.lemma_logs_transfer(&pre);
                }
                return ;
            },
            Some(d) => d,
        };
        let shape = self.bvh.indices()[p];
        self.hits = Ghost(
            self.hits@.push(ReportedHit { position: p as int, shape: shape as int, distance: d }),
        );
        proof {
            assert(self.spec_bvh() == pre.spec_bvh());
            assert(self.num_positions() == pre.num_positions());
            assert forall|x: int| pre.spec_probed().contains(x) implies self.spec_probed().contains(
                x,
            ) by {
                let i = choose|i: int|
                    0 <= i < pre.spec_probed().len() && pre.spec_probed()[i] == x;
                assert(self.spec_probed()[i] == x);
            }
            assert(self.spec_probed().contains(p as int)) by {
                assert(self.spec_probed()[pre.spec_probed().len() as int] == p as int);
            }
            assert(forall|k: int|
                0 <= k < pre.spec_hits().len() ==> #[trigger] self.spec_hits()[k]
                    == pre.spec_hits()[k]);
            assert(self.spec_hits()[pre.spec_hits().len() as int] == ReportedHit {
                position: p as int,
                shape: shape as int,
                distance: d,
            });
            assert forall|k: int|
                0 <= k < self.spec_hits().len() implies {
                let h = #[trigger] self.spec_hits()[k];
                &&& 0 <= h.position < self.num_positions()
                &&& h.shape == self.spec_bvh().spec_indices()[h.position]
                &&& self.spec_probed().contains(h.position)
            } by {
                if k < pre.spec_hits().len() {
                    assert(self.spec_hits()[k] == pre.spec_hits()[k]);
                    assert(pre.spec_probed().contains(pre.spec_hits()[k].position));
                }
            }
        }
        let cur = match self.nearest {
            Some((_, c)) => c,
            None => F64_MAX_BITS,
        };
        if crate::fp_bits::lt(d, cur) {
            self.nearest = Some((shape, d));
            proof {
                assert forall|k: int|
                    0 <= k < self.spec_hits().len() implies !f64_lt(
                    (#[trigger] self.spec_hits()[k]).distance,
                    d,
                ) by {
                    if k < pre.spec_hits().len() {
                        let dk = pre.spec_hits()[k].distance;
                        assert(!f64_lt(dk, cur));
                        if f64_lt(dk, d) {
                            lemma_f64_lt_transitive(dk, d, cur);
                        }
                    }
                }
                if pre.spec_nearest() is None {
                    assert(f64_lt(d, F64_MAX_BITS));
                } else {
                    let pd = pre.current_bound();
                    lemma_f64_lt_transitive(d, pd, F64_MAX_BITS);
                }
            }
        } else {
            proof {
                match pre.spec_nearest() {
                    None => {
                        assert(!f64_lt(d, F64_MAX_BITS));
                        assert forall|k: int|
                            0 <= k < self.spec_hits().len() implies !f64_lt(
                            (#[trigger] self.spec_hits()[k]).distance,
                            F64_MAX_BITS,
                        ) by {
                            if k < pre.spec_hits().len() {
                                assert(self.spec_hits()[k] == pre.spec_hits()[k]);
                                assert(!f64_lt(pre.spec_hits()[k].distance, F64_MAX_BITS));
                            }
                        }
                    },
                    Some((s0, d0)) => {
                        let k0 = choose|k: int|
                            0 <= k < pre.spec_hits().len() && (#[trigger] pre.spec_hits()[k]).shape
                                == s0 as int && pre.spec_hits()[k].distance == d0;
                        assert(self.spec_hits()[k0].shape == s0 as int && self.spec_hits()[
                            k0
                        ].distance == d0);
                        assert forall|k: int|
                            0 <= k < self.spec_hits().len() implies !f64_lt(
                            (#[trigger] self.spec_hits()[k]).distance,
                            d0,
                        ) by {
                            if k < pre.spec_hits().len() {
                                assert(self.spec_hits()[k] == pre.spec_hits()[k]);
                                assert(!f64_lt(pre.spec_hits()[k].distance, d0));
                            }
                        }
                    },
                }
            }
        }
        let update_least = if !crate::fp_bits::is_nan(d) {
            match self.least {
                None => true,
                Some(l) => crate::fp_bits::le(d, l),
            }
        } else {
            false
        };
        if update_least {
            proof {
                match pre.spec_least() {
                    Some(l) => {
                        assert forall|k: int|
                            0 <= k < self.spec_hits().len() && !f64_is_nan(
                                (#[trigger] self.spec_hits()[k]).distance,
                            ) implies f64_le(d, self.spec_hits()[k].distance) by {
                            if k < pre.spec_hits().len() {
                                lemma_f64_le_transitive(d, l, self.spec_hits()[k].distance);
                            } else {
                                lemma_f64_le_total(d, d);
                            }
                        }
                    },
                    None => {
                        lemma_f64_le_total(d, d);
                    },
                }
            }
            proof {
                assert(self.spec_hits()[pre.spec_hits().len() as int].distance == d);
            }
            self.least = Some(d);
        } else {
            proof {
                match pre.spec_least() {
                    Some(l) => {
                        if !f64_is_nan(d) {
                            lemma_f64_le_total(d, l);
                        }
                        let kl = choose|k: int|
                            0 <= k < pre.spec_hits().len() && (#[trigger] pre.spec_hits()[k]).distance
                                == l;
                        assert(self.spec_hits()[kl].distance == l);
                        assert forall|k: int|
                            0 <= k < self.spec_hits().len() && !f64_is_nan(
                                (#[trigger] self.spec_hits()[k]).distance,
                            ) implies f64_le(l, self.spec_hits()[k].distance) by {
                            if k < pre.spec_hits().len() {
                                assert(self.spec_hits()[k] == pre.spec_hits()[k]);
                                assert(f64_le(l, pre.spec_hits()[k].distance));
                            }
                        }
                    },
                    None => {
                        assert forall|k: int|
                            0 <= k < self.spec_hits().len() implies f64_is_nan(
                            (#[trigger] self.spec_hits()[k]).distance,
                        ) by {
                            if k < pre.spec_hits().len() {
                                assert(self.spec_hits()[k] == pre.spec_hits()[k]);
                                assert(f64_is_nan(pre.spec_hits()[k].distance));
                            }
                        }
                    },
                }
            }
        }
        proof {
            // Re-assemble the invariant at the final state: the
            // structural conjuncts through the lemma, the report-fold
            // conjuncts re-stated from the branch proofs above.
            self.lemma_shape_structure(&pre, p);
            assert(self.spec_bvh().well_formed());
            assert(self.spec_probed() == pre.spec_probed().push(p as int));
            assert(self.spec_nearest() matches Some((s, d2)) ==> f64_lt(d2, F64_MAX_BITS)
                && (exists|k: int|
                0 <= k < self.spec_hits().len() && (#[trigger] self.spec_hits()[k]).shape
                    == s as int && self.spec_hits()[k].distance == d2) && forall|k: int|
                0 <= k < self.spec_hits().len() ==> !f64_lt(
                    (#[trigger] self.spec_hits()[k]).distance,
                    d2,
                ));
            assert(self.spec_least() matches Some(l) ==> !f64_is_nan(l) && (exists|k: int|
                0 <= k < self.spec_hits().len() && (#[trigger] self.spec_hits()[k]).distance == l)
                && forall|k: int|
                0 <= k < self.spec_hits().len() && !f64_is_nan(
                    (#[trigger] self.spec_hits()[k]).distance,
                ) ==> f64_le(l, self.spec_hits()[k].distance));
            assert(forall|k: int|
                0 <= k < self.spec_hits().len() ==> {
                    let h = #[trigger] self.spec_hits()[k];
                    &&& 0 <= h.position < self.num_positions()
                    &&& h.shape == self.spec_bvh().spec_indices()[h.position]
                    &&& self.spec_probed().contains(h.position)
                });
        }
    }

    /// Answer the pending node probe: whether the ray meets the node's
    /// bounding box. A miss closes the whole subtree; a hit opens the
    /// node's two children, or — for a leaf — every position of its
    /// range, to be probed front to back.
    pub fn answer_node(&mut self, hit: bool)
        requires
            old(self).inv(),
            old(self).spec_pending() matches Some(s) && s is Node,
        ensures
            final(self).inv(),
            final(self).spec_bvh() == old(self).spec_bvh(),
            final(self).spec_pending() is None,
            final(self).spec_probed() == old(self).spec_probed(),
            final(self).spec_hits() == old(self).spec_hits(),
            final(self).spec_nearest() == old(self).spec_nearest(),
            final(self).spec_least() == old(self).spec_least(),
            old(self).spec_pending() matches Some(s) && s matches Step::Node(j) ==> {
                &&& final(self).spec_box_answers() == old(self).spec_box_answers().insert(
                    j as int,
                    hit,
                )
                &&& (!hit ==> final(self).spec_stack() == old(self).spec_stack())
                &&& (hit && old(self).nodes()[j as int].count == 0 ==> final(self).spec_stack()
                    == old(self).spec_stack().push(
                    Step::Node((old(self).nodes()[j as int].left_child + 1) as usize),
                ).push(Step::Node(old(self).nodes()[j as int].left_child)))
                &&& (hit && old(self).nodes()[j as int].count > 0 ==> {
                    let first = old(self).nodes()[j as int].left_child as int;
                    let count = old(self).nodes()[j as int].count as int;
                    &&& final(self).spec_stack().len() == old(self).spec_stack().len() + count
                    &&& (forall|i: int|
                        0 <= i < old(self).spec_stack().len() ==> final(self).spec_stack()[i]
                            == old(self).spec_stack()[i])
                    &&& (forall|i: int|
                        0 <= i < count ==> #[trigger] final(self).spec_stack()[old(self).spec_stack().len() + i] == Step::Position(
                            (first + count - 1 - i) as usize,
                        ))
                })
            },
    {
        let ghost pre = *self;
        let step = self.pending.unwrap();
        let j = match step {
            Step::Node(j) => j,
            Step::Position(p) => p,  // unreachable under the precondition
        };
        self.pending = None;
        self.box_answers = Ghost(self.box_answers@.insert(j as int, hit));
        if !hit {
            proof {
                self.lemma_node_structure(&pre, j, false);
            }
            return ;
        }
        proof {
            assert(pre.step_ok(pre.open_steps()[pre.open_steps().len() - 1]));
        }
        let node = self.bvh.nodes()[j];
        if node.count == 0 {
            proof {
                assert(nodes_in_bounds(self.spec_bvh().spec_nodes(), self.num_positions()));
            }
            self.stack.push(Step::Node(node.left_child + 1));
            self.stack.push(Step::Node(node.left_child));
            proof {
                self.lemma_node_structure(&pre, j, true);
            }
        } else {
            let first = node.left_child;
            let count = node.count;
            proof {
                assert(nodes_in_bounds(self.spec_bvh().spec_nodes(), self.num_positions()));
            }
            let total = self.bvh.indices().len();
            let mut i: usize = 0;
            while i < count
                invariant
                    i <= count,
                    first + count <= total,
                    self.spec_stack().len() == pre.spec_stack().len() + i,
                    forall|m: int|
                        0 <= m < pre.spec_stack().len() ==> #[trigger] self.spec_stack()[m]
                            == pre.spec_stack()[m],
                    forall|m: int|
                        0 <= m < i ==> #[trigger] self.spec_stack()[pre.spec_stack().len() + m]
                            == Step::Position((first + count - 1 - m) as usize),
                    self.spec_pending() is None,
                    self.spec_bvh() == pre.spec_bvh(),
                    self.spec_probed() == pre.spec_probed(),
                    self.spec_hits() == pre.spec_hits(),
                    self.spec_nearest() == pre.spec_nearest(),
                    self.spec_least() == pre.spec_least(),
                    self.spec_box_answers() == pre.spec_box_answers().insert(j as int, true),
                decreases count - i,
            {
                self.stack.push(Step::Position(first + count - 1 - i));
                i = i + 1;
            }
            proof {
                self.lemma_node_structure(&pre, j, true);
            }
        }
    }

    /// The open steps stay pairwise distinct after the node answer.
    #[verifier::rlimit(100)]
    proof fn lemma_node_distinct(&self, pre: &Traversal<'a>, j: usize, hit: bool)
        requires
            pre.inv(),
            pre.spec_pending() == Some(Step::Node(j)),
            self.spec_bvh() == pre.spec_bvh(),
            self.spec_pending() is None,
            self.spec_probed() == pre.spec_probed(),
            self.spec_hits() == pre.spec_hits(),
            self.spec_nearest() == pre.spec_nearest(),
            self.spec_least() == pre.spec_least(),
            self.spec_box_answers() == pre.spec_box_answers().insert(j as int, hit),
            !hit ==> self.spec_stack() == pre.spec_stack(),
            hit && pre.nodes()[j as int].count == 0 ==> self.spec_stack() == pre.spec_stack().push(
                Step::Node((pre.nodes()[j as int].left_child + 1) as usize),
            ).push(Step::Node(pre.nodes()[j as int].left_child)),
            hit && pre.nodes()[j as int].count > 0 ==> {
                let first = pre.nodes()[j as int].left_child as int;
                let count = pre.nodes()[j as int].count as int;
                &&& self.spec_stack().len() == pre.spec_stack().len() + count
                &&& (forall|i: int|
                    0 <= i < pre.spec_stack().len() ==> #[trigger] self.spec_stack()[i]
                        == pre.spec_stack()[i])
                &&& (forall|i: int|
                    0 <= i < count ==> #[trigger] self.spec_stack()[pre.spec_stack().len() + i]
                        == Step::Position((first + count - 1 - i) as usize))
            },
        ensures
            forall|k1: int, k2: int|
                0 <= k1 < self.open_steps().len() && 0 <= k2 < self.open_steps().len() && k1 != k2
                    ==> (#[trigger] self.open_steps()[k1]) != (#[trigger] self.open_steps()[k2]),
    {
        let jj = j as int;
        let last = pre.open_steps().len() - 1;
        assert(self.nodes() == pre.nodes());
        assert(crate::bvh::parent_structure(pre.nodes()));
        assert(pre.open_steps()[last] == Step::Node(j));
        assert(pre.step_ok(Step::Node(j)));
        assert(!pre.answered(jj));
        // A node whose parent was only now answered cannot already be
        // on the stack, nor can a position of j's leaf range.
        assert forall|c: int|
            is_child_of(self.nodes(), c, jj) implies !pre.open_steps().contains(
            Step::Node(c as usize),
        ) by {
            assert(is_child_of(pre.nodes(), c, jj));
            if pre.open_steps().contains(Step::Node(c as usize)) {
                let k = choose|k: int|
                    0 <= k < pre.open_steps().len() && pre.open_steps()[k] == Step::Node(
                        c as usize,
                    );
                assert(pre.step_ok(Step::Node(c as usize)));
                assert(0 <= c < self.nodes().len()) by {
                    assert(nodes_in_bounds(pre.nodes(), pre.num_positions()));
                    assert(pre.nodes()[jj].left_child + 1 < pre.nodes().len());
                }
                assert((c as usize) as int == c);
                assert(c != 0) by {
                    assert(jj < self.nodes()[jj].left_child);
                }
                let i = choose|i: int|
                    is_child_of(pre.nodes(), (c as usize) as int, i) && #[trigger] pre.answered_hit(
                        i,
                    );
                assert(is_child_of(pre.nodes(), c, i));
                assert(i == jj);
                assert(false);
            }
        }
        assert forall|p: int|
            leaf_covers(self.nodes()[jj], p) implies !pre.open_steps().contains(
            Step::Position(p as usize),
        ) by {
            if pre.open_steps().contains(Step::Position(p as usize)) {
                let k = choose|k: int|
                    0 <= k < pre.open_steps().len() && pre.open_steps()[k] == Step::Position(
                        p as usize,
                    );
                assert(pre.step_ok(Step::Position(p as usize)));
                let j2 = choose|j2: int|
                    0 <= j2 < pre.nodes().len() && leaf_covers(
                        #[trigger] pre.nodes()[j2],
                        (p as usize) as int,
                    ) && pre.answered_hit(j2);
                assert(leaf_covers(pre.nodes()[j2], p));
                assert(leaf_covers(pre.nodes()[jj], p));
                assert(j2 == jj);
                assert(false);
            }
        }
        assert forall|k: int|
            0 <= k < pre.spec_stack().len() implies #[trigger] self.spec_stack()[k]
            == pre.spec_stack()[k] by {}
        // Distinctness of the open steps.
        assert forall|k1: int, k2: int|
            0 <= k1 < self.open_steps().len() && 0 <= k2 < self.open_steps().len() && k1 != k2
                implies (#[trigger] self.open_steps()[k1]) != (
            #[trigger] self.open_steps()[k2]) by {
            let base = pre.spec_stack().len() as int;
            if k1 < base && k2 < base {
                assert(pre.open_steps()[k1] != pre.open_steps()[k2]);
            } else if k1 < base || k2 < base {
                let ko = if k1 < base { k1 } else { k2 };
                let kn = if k1 < base { k2 } else { k1 };
                if self.open_steps()[ko] == self.open_steps()[kn] {
                    assert(pre.open_steps()[ko] == pre.spec_stack()[ko]);
                    if hit && pre.nodes()[jj].count == 0 {
                        let lc = pre.nodes()[jj].left_child;
                        assert(0 <= lc as int + 1 < self.nodes().len()) by {
                            assert(nodes_in_bounds(pre.nodes(), pre.num_positions()));
                        }
                        assert(self.spec_stack()[base + 1] == Step::Node(lc));
                        assert(self.spec_stack()[base] == Step::Node((lc + 1) as usize));
                        assert(is_child_of(self.nodes(), lc as int, jj));
                        assert(is_child_of(self.nodes(), lc as int + 1, jj));
                        assert(kn == base || kn == base + 1);
                        let c = if kn == base + 1 { lc } else { (lc + 1) as usize };
                        assert(self.open_steps()[kn] == Step::Node(c));
                        assert(is_child_of(self.nodes(), c as int, jj));
                        assert(!pre.open_steps().contains(Step::Node(c)));
                        assert(pre.open_steps()[ko] == Step::Node(c));
                        assert(false);
                    } else if hit && pre.nodes()[jj].count > 0 {
                        let first = pre.nodes()[jj].left_child as int;
                        let count = pre.nodes()[jj].count as int;
                        let i = kn - base;
                        assert(0 <= i < count);
                        assert(self.spec_stack()[base + i] == Step::Position(
                            (first + count - 1 - i) as usize,
                        ));
                        assert(self.open_steps()[kn] == Step::Position(
                            (first + count - 1 - i) as usize,
                        ));
                        assert(leaf_covers(self.nodes()[jj], first + count - 1 - i));
                        assert(!pre.open_steps().contains(
                            Step::Position((first + count - 1 - i) as usize),
                        ));
                        assert(pre.open_steps()[ko] == Step::Position(
                            (first + count - 1 - i) as usize,
                        ));
                        assert(false);
                    }
                }
            } else {
                if hit && pre.nodes()[jj].count > 0 {
                    let first = pre.nodes()[jj].left_child as int;
                    let count = pre.nodes()[jj].count as int;
                    let i1 = k1 - base;
                    let i2 = k2 - base;
                    assert(0 <= i1 < count && 0 <= i2 < count);
                    assert(self.spec_stack()[base + i1] == Step::Position(
                        (first + count - 1 - i1) as usize,
                    ));
                    assert(self.spec_stack()[base + i2] == Step::Position(
                        (first + count - 1 - i2) as usize,
                    ));
                    assert(first + count <= self.num_positions());
                    assert((first + count - 1 - i1) as usize != (first + count - 1 - i2) as usize);
                }
            }
        }
    }

    /// After the pending node probe of `pre` is answered, the invariant
    /// still holds: a miss opens nothing, a hit opens exactly the
    /// node's children or leaf positions.
    #[verifier::rlimit(100)]
    proof fn lemma_node_structure(&self, pre: &Traversal<'a>, j: usize, hit: bool)
        requires
            pre.inv(),
            pre.spec_pending() == Some(Step::Node(j)),
            self.spec_bvh() == pre.spec_bvh(),
            self.spec_pending() is None,
            self.spec_probed() == pre.spec_probed(),
            self.spec_hits() == pre.spec_hits(),
            self.spec_nearest() == pre.spec_nearest(),
            self.spec_least() == pre.spec_least(),
            self.spec_box_answers() == pre.spec_box_answers().insert(j as int, hit),
            !hit ==> self.spec_stack() == pre.spec_stack(),
            hit && pre.nodes()[j as int].count == 0 ==> self.spec_stack() == pre.spec_stack().push(
                Step::Node((pre.nodes()[j as int].left_child + 1) as usize),
            ).push(Step::Node(pre.nodes()[j as int].left_child)),
            hit && pre.nodes()[j as int].count > 0 ==> {
                let first = pre.nodes()[j as int].left_child as int;
                let count = pre.nodes()[j as int].count as int;
                &&& self.spec_stack().len() == pre.spec_stack().len() + count
                &&& (forall|i: int|
                    0 <= i < pre.spec_stack().len() ==> #[trigger] self.spec_stack()[i]
                        == pre.spec_stack()[i])
                &&& (forall|i: int|
                    0 <= i < count ==> #[trigger] self.spec_stack()[pre.spec_stack().len() + i]
                        == Step::Position((first + count - 1 - i) as usize))
            },
        ensures
            self.inv(),
    {
        let jj = j as int;
        let last = pre.open_steps().len() - 1;
        assert(self.nodes() == pre.nodes());
        assert(crate::bvh::parent_structure(pre.nodes()));
        assert(pre.open_steps()[last] == Step::Node(j));
        assert(pre.step_ok(Step::Node(j)));
        assert(!pre.answered(jj));
        assert(self.answered(jj) && self.answered_hit(jj) == hit);
        assert forall|i: int| pre.answered(i) implies #[trigger] self.answered(i)
            && self.answered_hit(i) == pre.answered_hit(i) by {
            assert(i != jj);
        }
        assert forall|i: int| #[trigger] self.answered(i) implies i == jj || pre.answered(i) by {}
        // The pedigree of every answered node still stands, now with j.
        assert forall|m: int|
            #[trigger] self.answered(m) implies 0 <= m < self.nodes().len() && (m == 0
            || exists|i: int|
            is_child_of(self.nodes(), m, i) && #[trigger] self.answered_hit(i)) by {
            if m == jj {
                if j != 0 {
                    let i = choose|i: int|
                        is_child_of(pre.nodes(), jj, i) && #[trigger] pre.answered_hit(i);
                    assert(is_child_of(self.nodes(), jj, i) && self.answered_hit(i));
                }
            } else {
                assert(pre.answered(m));
                if m != 0 {
                    let i = choose|i: int|
                        is_child_of(pre.nodes(), m, i) && #[trigger] pre.answered_hit(i);
                    assert(is_child_of(self.nodes(), m, i) && self.answered_hit(i));
                }
            }
        }
        // A node whose parent was only now answered cannot already be
        // answered, probed as a position, or on the stack.
        assert forall|c: int|
            is_child_of(self.nodes(), c, jj) implies !pre.answered(c) && !pre.open_steps().contains(
            Step::Node(c as usize),
        ) by {
            assert(is_child_of(pre.nodes(), c, jj));
            assert(c != 0) by {
                assert(jj < self.nodes()[jj].left_child);
            }
            assert(0 <= c < self.nodes().len()) by {
                assert(nodes_in_bounds(pre.nodes(), pre.num_positions()));
                assert(pre.nodes()[jj].left_child + 1 < pre.nodes().len());
            }
            assert((c as usize) as int == c);
            if pre.answered(c) {
                let i = choose|i: int|
                    is_child_of(pre.nodes(), c, i) && #[trigger] pre.answered_hit(i);
                assert(i == jj);
                assert(false);
            }
            if pre.open_steps().contains(Step::Node(c as usize)) {
                let k = choose|k: int|
                    0 <= k < pre.open_steps().len() && pre.open_steps()[k] == Step::Node(
                        c as usize,
                    );
                assert(pre.step_ok(Step::Node(c as usize)));
                let i = choose|i: int|
                    is_child_of(pre.nodes(), (c as usize) as int, i) && #[trigger] pre.answered_hit(
                        i,
                    );
                assert(is_child_of(pre.nodes(), c, i));
                assert(i == jj);
                assert(false);
            }
        }
        assert forall|p: int|
            leaf_covers(self.nodes()[jj], p) implies !pre.spec_probed().contains(p)
            && !pre.open_steps().contains(Step::Position(p as usize)) by {
            if pre.spec_probed().contains(p) {
                let k = choose|k: int|
                    0 <= k < pre.spec_probed().len() && pre.spec_probed()[k] == p;
                let j2 = choose|j2: int|
                    0 <= j2 < pre.nodes().len() && leaf_covers(#[trigger] pre.nodes()[j2], p)
                        && pre.answered_hit(j2);
                assert(j2 == jj);
                assert(false);
            }
            if pre.open_steps().contains(Step::Position(p as usize)) {
                let k = choose|k: int|
                    0 <= k < pre.open_steps().len() && pre.open_steps()[k] == Step::Position(
                        p as usize,
                    );
                assert(pre.step_ok(Step::Position(p as usize)));
                let j2 = choose|j2: int|
                    0 <= j2 < pre.nodes().len() && leaf_covers(
                        #[trigger] pre.nodes()[j2],
                        (p as usize) as int,
                    ) && pre.answered_hit(j2);
                assert(leaf_covers(pre.nodes()[j2], p));
                assert(leaf_covers(pre.nodes()[jj], p));
                assert(j2 == jj);
                assert(false);
            }
        }
        // Old stack entries carry over, and never mention j.
        assert forall|k: int|
            0 <= k < pre.spec_stack().len() implies #[trigger] self.spec_stack()[k]
            == pre.spec_stack()[k] && self.step_ok(pre.spec_stack()[k]) by {
            assert(pre.open_steps()[k] == pre.spec_stack()[k]);
            assert(pre.step_ok(pre.open_steps()[k]));
            assert(pre.open_steps()[k] != pre.open_steps()[last]);
            match pre.spec_stack()[k] {
                Step::Node(m) => {
                    assert(m != j);
                    if m != 0 {
                        let i = choose|i: int|
                            is_child_of(pre.nodes(), m as int, i) && #[trigger] pre.answered_hit(
                                i,
                            );
                        assert(is_child_of(self.nodes(), m as int, i) && self.answered_hit(i));
                    }
                },
                Step::Position(q) => {
                    let j2 = choose|j2: int|
                        0 <= j2 < pre.nodes().len() && leaf_covers(
                            #[trigger] pre.nodes()[j2],
                            q as int,
                        ) && pre.answered_hit(j2);
                    assert(leaf_covers(self.nodes()[j2], q as int) && self.answered_hit(j2));
                },
            }
        }
        // New stack entries are in order.
        if hit && pre.nodes()[jj].count == 0 {
            let lc = pre.nodes()[jj].left_child as int;
            assert(is_child_of(self.nodes(), lc, jj));
            assert(is_child_of(self.nodes(), lc + 1, jj));
            assert(self.step_ok(Step::Node(pre.nodes()[jj].left_child)));
            assert(self.step_ok(Step::Node((pre.nodes()[jj].left_child + 1) as usize)));
        }
        if hit && pre.nodes()[jj].count > 0 {
            let first = pre.nodes()[jj].left_child as int;
            let count = pre.nodes()[jj].count as int;
            assert forall|i: int|
                0 <= i < count implies #[trigger] self.step_ok(
                Step::Position((first + count - 1 - i) as usize),
            ) by {
                assert(leaf_covers(self.nodes()[jj], first + count - 1 - i));
                assert(self.answered_hit(jj));
            }
        }
        assert forall|k: int|
            0 <= k < self.open_steps().len() implies self.step_ok(
            #[trigger] self.open_steps()[k],
        ) by {
            if k < pre.spec_stack().len() {
                assert(self.open_steps()[k] == pre.spec_stack()[k]);
            } else if hit && pre.nodes()[jj].count > 0 {
                let first = pre.nodes()[jj].left_child as int;
                let count = pre.nodes()[jj].count as int;
                let i = k - pre.spec_stack().len();
                assert(0 <= i < count);
                assert(self.spec_stack()[pre.spec_stack().len() + i] == Step::Position(
                    (first + count - 1 - i) as usize,
                ));
                assert(self.open_steps()[k] == Step::Position((first + count - 1 - i) as usize));
                assert(self.step_ok(Step::Position((first + count - 1 - i) as usize)));
            }
        }
        self.lemma_node_distinct(pre, j, hit);
        // Children of every node answered hit are settled or open.
        assert forall|m: int, c: int|
            self.answered_hit(m) && self.nodes()[m].count == 0 && #[trigger] is_child_of(
                self.nodes(),
                c,
                m,
            ) implies self.answered(c) || self.open_steps().contains(Step::Node(c as usize)) by {
            if m == jj {
                let base = pre.spec_stack().len() as int;
                assert(self.open_steps()[base + 1] == Step::Node(pre.nodes()[jj].left_child));
                assert(self.open_steps()[base] == Step::Node(
                    (pre.nodes()[jj].left_child + 1) as usize,
                ));
            } else {
                assert(pre.answered_hit(m) && is_child_of(pre.nodes(), c, m));
                if c == jj {
                    assert(self.answered(c));
                } else if !pre.answered(c) {
                    assert(pre.open_steps().contains(Step::Node(c as usize)));
                    let k = choose|k: int|
                        0 <= k < pre.open_steps().len() && pre.open_steps()[k] == Step::Node(
                            c as usize,
                        );
                    assert(0 <= c < self.nodes().len()) by {
                        assert(nodes_in_bounds(pre.nodes(), pre.num_positions()));
                        assert(pre.nodes()[m].left_child + 1 < pre.nodes().len());
                    }
                    assert((c as usize) as int == c);
                    assert(k != last);
                    assert(self.open_steps()[k] == Step::Node(c as usize));
                }
            }
        }
        // Positions of every leaf answered hit are probed or open.
        assert forall|m: int, p: int|
            self.answered_hit(m) && #[trigger] leaf_covers(self.nodes()[m], p)
                implies self.spec_probed().contains(p) || self.open_steps().contains(
            Step::Position(p as usize),
        ) by {
            if m == jj {
                let first = pre.nodes()[jj].left_child as int;
                let count = pre.nodes()[jj].count as int;
                let base = pre.spec_stack().len() as int;
                let i = first + count - 1 - p;
                assert(0 <= i < count);
                assert(self.open_steps()[base + i] == Step::Position(p as usize));
            } else {
                assert(pre.answered_hit(m) && leaf_covers(pre.nodes()[m], p));
                if !pre.spec_probed().contains(p) {
                    assert(pre.open_steps().contains(Step::Position(p as usize)));
                    let k = choose|k: int|
                        0 <= k < pre.open_steps().len() && pre.open_steps()[k] == Step::Position(
                            p as usize,
                        );
                    assert(k != last);
                    assert(self.open_steps()[k] == Step::Position(p as usize));
                }
            }
        }
        // The probed log keeps its pedigree.
        assert forall|k: int|
            0 <= k < self.spec_probed().len() implies 0 <= #[trigger] self.spec_probed()[k]
            < self.num_positions() && exists|j2: int|
            0 <= j2 < self.nodes().len() && leaf_covers(
                #[trigger] self.nodes()[j2],
                self.spec_probed()[k],
            ) && self.answered_hit(j2) by {
            let j2 = choose|j2: int|
                0 <= j2 < pre.nodes().len() && leaf_covers(
                    #[trigger] pre.nodes()[j2],
                    pre.spec_probed()[k],
                ) && pre.answered_hit(j2);
            assert(leaf_covers(self.nodes()[j2], self.spec_probed()[k]) && self.answered_hit(j2));
        }
        assert(self.answered(0) || self.open_steps().contains(Step::Node(0usize))) by {
            if j != 0 && !pre.answered(0) {
                let k0 = choose|k: int|
                    0 <= k < pre.open_steps().len() && pre.open_steps()[k] == Step::Node(0usize);
                assert(k0 != last);
                assert(self.open_steps()[k0] == Step::Node(0usize));
            }
        }
        self.lemma_logs_transfer(pre);
    }

    /// Whether every probe has been answered and nothing is left.
    pub fn is_done(&self) -> (r: bool)
        ensures
            r == self.done(),
    {
        self.stack.len() == 0 && self.pending.is_none()
    }

    /// Whether some reported hit lies within the cutoff: the any-hit
    /// question. May be read at any point of the walk; once true it
    /// stays true, and the caller may stop probing.
    pub fn found_within(&self, max_distance: u64) -> (r: bool)
        requires
            self.inv(),
        ensures
            r == exists|k: int|
                0 <= k < self.spec_hits().len() && f64_le(
                    (#[trigger] self.spec_hits()[k]).distance,
                    max_distance,
                ),
    {
        let r = match self.least {
            None => false,
            Some(l) => crate::fp_bits::le(l, max_distance),
        };
        proof {
            match self.spec_least() {
                None => {
                    assert forall|k: int|
                        0 <= k < self.spec_hits().len() implies !f64_le(
                        (#[trigger] self.spec_hits()[k]).distance,
                        max_distance,
                    ) by {
                        assert(f64_is_nan(self.spec_hits()[k].distance));
                    }
                },
                Some(l) => {
                    if r {
                        let kl = choose|k: int|
                            0 <= k < self.spec_hits().len() && (#[trigger] self.spec_hits()[k]).distance
                                == l;
                        assert(f64_le(self.spec_hits()[kl].distance, max_distance));
                    } else {
                        assert forall|k: int|
                            0 <= k < self.spec_hits().len() implies !f64_le(
                            (#[trigger] self.spec_hits()[k]).distance,
                            max_distance,
                        ) by {
                            if f64_le(self.spec_hits()[k].distance, max_distance) {
                                lemma_f64_le_transitive(
                                    l,
                                    self.spec_hits()[k].distance,
                                    max_distance,
                                );
                            }
                        }
                    }
                },
            }
        }
        r
    }

    /// Law: widening an any-hit cutoff never loses the answer — if some
    /// reported hit lies within one cutoff, it lies within every cutoff
    /// at least as far.
    pub proof fn lemma_found_within_monotonic(&self, d1: u64, d2: u64)
        requires
            f64_le(d1, d2),
            exists|k: int|
                0 <= k < self.spec_hits().len() && f64_le(
                    (#[trigger] self.spec_hits()[k]).distance,
                    d1,
                ),
        ensures
            exists|k: int|
                0 <= k < self.spec_hits().len() && f64_le(
                    (#[trigger] self.spec_hits()[k]).distance,
                    d2,
                ),
    {
        let k = choose|k: int|
            0 <= k < self.spec_hits().len() && f64_le(
                (#[trigger] self.spec_hits()[k]).distance,
                d1,
            );
        lemma_f64_le_transitive(self.spec_hits()[k].distance, d1, d2);
        assert(f64_le(self.spec_hits()[k].distance, d2));
    }

    /// Close the walk: the closest-hit result.
    ///
    /// The result is the reported hit of minimal distance — present
    /// exactly when some hit was reported strictly below the largest
    /// finite value. And the walk was complete and sound: a node was
    /// answered exactly when it is the root or the child of a node
    /// answered hit (so a subtree went unexplored only under a box
    /// answered missed), and a position was probed — exactly once —
    /// exactly when its leaf was answered hit.
    pub fn finish(self) -> (r: Option<(usize, u64)>)
        requires
            self.inv(),
            self.done(),
        ensures
            r == self.spec_nearest(),
            r matches Some((s, d)) ==> f64_lt(d, F64_MAX_BITS) && (exists|k: int|
                0 <= k < self.spec_hits().len() && (#[trigger] self.spec_hits()[k]).shape
                    == s as int && self.spec_hits()[k].distance == d) && forall|k: int|
                0 <= k < self.spec_hits().len() ==> !f64_lt(
                    (#[trigger] self.spec_hits()[k]).distance,
                    d,
                ),
            (r is Some) <==> exists|k: int|
                0 <= k < self.spec_hits().len() && f64_lt(
                    (#[trigger] self.spec_hits()[k]).distance,
                    F64_MAX_BITS,
                ),
            forall|j: int|
                #[trigger] self.answered(j) <==> 0 <= j < self.nodes().len() && (j == 0
                    || exists|i: int|
                    is_child_of(self.nodes(), j, i) && #[trigger] self.answered_hit(i)),
            forall|p: int|
                #[trigger] self.spec_probed().contains(p) <==> exists|j: int|
                    0 <= j < self.nodes().len() && leaf_covers(#[trigger] self.nodes()[j], p)
                        && self.answered_hit(j),
            self.spec_probed().no_duplicates(),
    {
        proof {
            assert(self.open_steps().len() == 0);
            // Nothing is open, so every owed probe was answered.
            assert forall|j: int|
                0 <= j < self.nodes().len() && (j == 0 || exists|i: int|
                    is_child_of(self.nodes(), j, i) && #[trigger] self.answered_hit(i))
                implies #[trigger] self.answered(j) by {
                if j == 0 {
                    assert(!self.open_steps().contains(Step::Node(0usize)));
                } else {
                    let i = choose|i: int|
                        is_child_of(self.nodes(), j, i) && #[trigger] self.answered_hit(i);
                    assert(self.nodes()[i].count == 0);
                    assert(0 <= j < self.nodes().len()) by {
                        assert(nodes_in_bounds(
                            self.spec_bvh().spec_nodes(),
                            self.num_positions(),
                        ));
                    }
                    assert((j as usize) as int == j);
                    assert(!self.open_steps().contains(Step::Node(j as usize)));
                }
            }
            assert forall|p: int|
                (exists|j: int|
                    0 <= j < self.nodes().len() && leaf_covers(#[trigger] self.nodes()[j], p)
                        && self.answered_hit(j)) implies #[trigger] self.spec_probed().contains(
                p,
            ) by {
                let j = choose|j: int|
                    0 <= j < self.nodes().len() && leaf_covers(#[trigger] self.nodes()[j], p)
                        && self.answered_hit(j);
                assert(0 <= p < self.num_positions()) by {
                    assert(nodes_in_bounds(self.spec_bvh().spec_nodes(), self.num_positions()));
                }
                assert((p as usize) as int == p);
                assert(!self.open_steps().contains(Step::Position(p as usize)));
            }
            match self.spec_nearest() {
                Some((s, d)) => {
                    let k = choose|k: int|
                        0 <= k < self.spec_hits().len() && (#[trigger] self.spec_hits()[k]).shape
                            == s as int && self.spec_hits()[k].distance == d;
                    assert(f64_lt(self.spec_hits()[k].distance, F64_MAX_BITS));
                },
                None => {},
            }
        }
        self.nearest
    }

    /// After a shape probe for position `p` of `pre`'s pending step is
    /// answered, the structural conjuncts of the invariant still hold,
    /// whatever became of the report folds.
    proof fn lemma_shape_structure(&self, pre: &Traversal<'a>, p: usize)
        requires
            pre.inv(),
            pre.spec_pending() == Some(Step::Position(p)),
            self.spec_bvh() == pre.spec_bvh(),
            self.spec_stack() == pre.spec_stack(),
            self.spec_pending() is None,
            self.spec_box_answers() == pre.spec_box_answers(),
            self.spec_probed() == pre.spec_probed().push(p as int),
        ensures
            forall|k: int|
                0 <= k < self.open_steps().len() ==> self.step_ok(#[trigger] self.open_steps()[k]),
            forall|k1: int, k2: int|
                0 <= k1 < self.open_steps().len() && 0 <= k2 < self.open_steps().len() && k1 != k2
                    ==> (#[trigger] self.open_steps()[k1]) != (#[trigger] self.open_steps()[k2]),
            forall|j: int|
                #[trigger] self.answered(j) ==> 0 <= j < self.nodes().len() && (j == 0
                    || exists|i: int|
                    is_child_of(self.nodes(), j, i) && #[trigger] self.answered_hit(i)),
            forall|j: int, c: int|
                self.answered_hit(j) && self.nodes()[j].count == 0 && #[trigger] is_child_of(
                    self.nodes(),
                    c,
                    j,
                ) ==> self.answered(c) || self.open_steps().contains(Step::Node(c as usize)),
            forall|j: int, q: int|
                self.answered_hit(j) && #[trigger] leaf_covers(self.nodes()[j], q)
                    ==> self.spec_probed().contains(q) || self.open_steps().contains(
                    Step::Position(q as usize),
                ),
            self.spec_probed().no_duplicates(),
            self.answered(0) || self.open_steps().contains(Step::Node(0usize)),
            forall|k: int|
                0 <= k < self.spec_probed().len() ==> 0 <= #[trigger] self.spec_probed()[k]
                    < self.num_positions() && exists|j: int|
                    0 <= j < self.nodes().len() && leaf_covers(
                        #[trigger] self.nodes()[j],
                        self.spec_probed()[k],
                    ) && self.answered_hit(j),
    {
        let last = pre.open_steps().len() - 1;
        assert(pre.open_steps()[last] == Step::Position(p));
        if !pre.answered(0) {
            let k0 = choose|k: int|
                0 <= k < pre.open_steps().len() && pre.open_steps()[k] == Step::Node(0usize);
            assert(k0 != last);
            assert(self.open_steps()[k0] == Step::Node(0usize));
        }
        assert(pre.step_ok(pre.open_steps()[last]));
        assert(self.open_steps() == pre.spec_stack());
        assert(self.spec_probed().contains(p as int)) by {
            assert(self.spec_probed()[pre.spec_probed().len() as int] == p as int);
        }
        assert forall|x: int| pre.spec_probed().contains(x) implies self.spec_probed().contains(
            x,
        ) by {
            let i = choose|i: int| 0 <= i < pre.spec_probed().len() && pre.spec_probed()[i] == x;
            assert(self.spec_probed()[i] == x);
        }
        self.lemma_answers_transfer(pre);
        assert forall|k: int|
            0 <= k < self.open_steps().len() implies self.step_ok(
            #[trigger] self.open_steps()[k],
        ) by {
            assert(pre.open_steps()[k] == self.open_steps()[k]);
            assert(pre.step_ok(pre.open_steps()[k]));
            match self.open_steps()[k] {
                Step::Node(m) => {
                    if m != 0 {
                        let i = choose|i: int|
                            is_child_of(pre.nodes(), m as int, i) && #[trigger] pre.answered_hit(
                                i,
                            );
                        assert(is_child_of(self.nodes(), m as int, i) && self.answered_hit(i));
                    }
                },
                Step::Position(q) => {
                    assert(pre.open_steps()[k] != pre.open_steps()[last]);
                    assert(q != p);
                    let j = choose|j: int|
                        0 <= j < pre.nodes().len() && leaf_covers(
                            #[trigger] pre.nodes()[j],
                            q as int,
                        ) && pre.answered_hit(j);
                    assert(leaf_covers(self.nodes()[j], q as int) && self.answered_hit(j));
                    if self.spec_probed().contains(q as int) {
                        let i = choose|i: int|
                            0 <= i < self.spec_probed().len() && self.spec_probed()[i] == q as int;
                        if i < pre.spec_probed().len() {
                            assert(pre.spec_probed()[i] == q as int);
                            assert(pre.spec_probed().contains(q as int));
                        }
                        assert(false);
                    }
                },
            }
        }
        assert(forall|k: int|
            0 <= k < self.open_steps().len() ==> #[trigger] self.open_steps()[k]
                == pre.open_steps()[k]);
        assert forall|k1: int, k2: int|
            0 <= k1 < self.open_steps().len() && 0 <= k2 < self.open_steps().len() && k1 != k2
                implies (#[trigger] self.open_steps()[k1]) != (
            #[trigger] self.open_steps()[k2]) by {
            assert(pre.open_steps()[k1] != pre.open_steps()[k2]);
        }
        assert forall|j: int, c: int|
            self.answered_hit(j) && self.nodes()[j].count == 0 && #[trigger] is_child_of(
                self.nodes(),
                c,
                j,
            ) implies self.answered(c) || self.open_steps().contains(Step::Node(c as usize)) by {
            assert(pre.answered_hit(j) && is_child_of(pre.nodes(), c, j));
            if !pre.answered(c) {
                assert(pre.open_steps().contains(Step::Node(c as usize)));
            }
        }
        assert forall|j: int, q: int|
            self.answered_hit(j) && #[trigger] leaf_covers(self.nodes()[j], q)
                implies self.spec_probed().contains(q) || self.open_steps().contains(
            Step::Position(q as usize),
        ) by {
            assert(pre.answered_hit(j) && leaf_covers(pre.nodes()[j], q));
            if !pre.spec_probed().contains(q) {
                assert(pre.open_steps().contains(Step::Position(q as usize)));
                if Step::Position(q as usize) == Step::Position(p) {
                    assert(self.spec_probed().contains(q));
                }
            }
        }
        assert(self.spec_probed().no_duplicates()) by {
            assert(!pre.spec_probed().contains(p as int));
            assert(forall|k: int|
                0 <= k < pre.spec_probed().len() ==> #[trigger] self.spec_probed()[k]
                    == pre.spec_probed()[k]);
            assert forall|k1: int, k2: int|
                0 <= k1 < self.spec_probed().len() && 0 <= k2 < self.spec_probed().len() && k1
                    != k2 implies self.spec_probed()[k1] != self.spec_probed()[k2] by {
                if k1 < pre.spec_probed().len() && k2 < pre.spec_probed().len() {
                    assert(pre.spec_probed()[k1] != pre.spec_probed()[k2]);
                } else if k1 < pre.spec_probed().len() {
                    assert(pre.spec_probed().contains(pre.spec_probed()[k1]));
                } else if k2 < pre.spec_probed().len() {
                    assert(pre.spec_probed().contains(pre.spec_probed()[k2]));
                }
            }
        }
        assert forall|k: int|
            0 <= k < self.spec_probed().len() implies 0 <= #[trigger] self.spec_probed()[k]
            < self.num_positions() && exists|j: int|
            0 <= j < self.nodes().len() && leaf_covers(
                #[trigger] self.nodes()[j],
                self.spec_probed()[k],
            ) && self.answered_hit(j) by {
            if k < pre.spec_probed().len() {
                assert(self.spec_probed()[k] == pre.spec_probed()[k]);
                let j = choose|j: int|
                    0 <= j < pre.nodes().len() && leaf_covers(
                        #[trigger] pre.nodes()[j],
                        pre.spec_probed()[k],
                    ) && pre.answered_hit(j);
                assert(leaf_covers(self.nodes()[j], self.spec_probed()[k]) && self.answered_hit(
                    j,
                ));
            } else {
                assert(self.spec_probed()[k] == p as int);
                let j = choose|j: int|
                    0 <= j < pre.nodes().len() && leaf_covers(#[trigger] pre.nodes()[j], p as int)
                        && pre.answered_hit(j);
                assert(leaf_covers(self.nodes()[j], p as int) && self.answered_hit(j));
            }
        }
    }
}

} // verus!
