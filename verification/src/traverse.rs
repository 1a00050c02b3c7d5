use vstd::prelude::*;
use crate::bvh::BVH;

verus! {

/// A primitive intersection: the primitive's index and the parametric
/// distance `t` of the hit, carried as the bit pattern of the positive
/// finite `f32` the geometry kernel computed. For positive finite floats
/// the unsigned order of the bit patterns is exactly the numeric order,
/// so the traversal compares and minimizes plain integers.
#[derive(Clone, Copy, PartialEq, Eq, Structural, Debug)]
pub struct HitRecord {
    pub primitive: usize,
    pub t_bits: u32,
}

/// What the traversal is waiting for.
#[derive(Clone, Copy, PartialEq, Eq, Structural, Debug)]
pub enum Phase {
    /// At an internal node: both children's bounding boxes must be tested
    /// against the ray before the traversal descends.
    Visit { node: usize },
    /// Scanning a leaf: the primitive in slot `next` of the leaf's range
    /// must be intersected with the ray.
    Leaf { node: usize, next: usize },
    /// Every reachable node has been processed.
    Done,
}

/// The question the traversal asks the geometry kernel next.
#[derive(Clone, Copy, PartialEq, Eq, Structural, Debug)]
pub enum TraversalQuery {
    /// Slab-test the bounding boxes of the two child nodes against the ray.
    Boxes { left: usize, right: usize },
    /// Intersect the given primitive with the ray over the traversal's
    /// fixed `[t_min, t_max]` window.
    Primitive { primitive: usize },
    Done,
}

/// `x` is no larger than a reported hit distance (a missing hit counts as
/// larger than everything).
pub open spec fn opt_le(x: u32, o: Option<u32>) -> bool {
    match o {
        Some(t) => x <= t,
        None => true,
    }
}

/// Iterative ray traversal of a [`BVH`], driven from outside: the caller
/// owns the ray and the floating-point geometry, the machine owns the
/// explicit node stack and the running closest hit. The caller repeatedly
/// asks [`Traversal::query`] what test is needed, performs it, and reports
/// the outcome through [`Traversal::answer_boxes`] /
/// [`Traversal::answer_primitive`]; when the query is `Done`,
/// [`Traversal::result`] is the closest reported hit.
///
/// The descent order is fixed: at an internal node the machine
/// always descends into the left child when either child's box was hit,
/// and pushes the right child only when the right box was hit; a subtree
/// is dismissed only when a box test reported a miss.
///
/// Everything the kernel reports is recorded in ghost state (`answers`,
/// `box_misses`); [`lemma_traversal_matches_linear_scan`] proves from
/// those records that the final result equals a linear scan over all
/// primitives.
pub struct Traversal {
    pub stack: Vec<usize>,
    pub phase: Phase,
    pub best: Option<HitRecord>,
    /// Every primitive intersection the kernel reported, in order.
    pub answers: Ghost<Seq<(int, Option<u32>)>>,
    /// Every node whose child box test reported a miss.
    pub box_misses: Ghost<Set<int>>,
}

/// `stack_live` carries over to a state with the same stack.
proof fn lemma_stack_live_transfer(pre: Traversal, post: Traversal, bvh: &BVH, s: int)
    requires
        post.stack@ == pre.stack@,
        pre.stack_live(bvh, s),
    ensures
        post.stack_live(bvh, s),
{
    let k = choose|k: int|
        0 <= k < pre.stack.len() && bvh.in_range(#[trigger] pre.stack[k] as int, s);
    assert(bvh.in_range(post.stack[k] as int, s));
}

/// `answered` carries over to a state whose answer log extends the old one.
proof fn lemma_answered_transfer(pre: Traversal, post: Traversal, bvh: &BVH, s: int)
    requires
        pre.answers@.len() <= post.answers@.len(),
        forall|k: int|
            0 <= k < pre.answers@.len() ==> #[trigger] post.answers@[k] == pre.answers@[k],
        pre.answered(bvh, s),
    ensures
        post.answered(bvh, s),
{
    let k = choose|k: int|
        0 <= k < pre.answers@.len() && (#[trigger] pre.answers@[k]).0
            == bvh.primitive_indices[s] as int;
    assert((post.answers@[k]).0 == bvh.primitive_indices[s] as int);
}

/// `pruned` carries over to a state with at least the old box misses.
proof fn lemma_pruned_transfer(pre: Traversal, post: Traversal, bvh: &BVH, s: int)
    requires
        forall|nd: int|
            #[trigger] pre.box_misses@.contains(nd) ==> post.box_misses@.contains(nd),
        pre.pruned(bvh, s),
    ensures
        post.pruned(bvh, s),
{
    let nd = choose|nd: int|
        #[trigger] pre.box_misses@.contains(nd) && 0 <= nd < bvh.nodes_used && bvh.in_range(
            nd,
            s,
        );
    assert(post.box_misses@.contains(nd) && 0 <= nd < bvh.nodes_used && bvh.in_range(nd, s));
}

/// `best_ok` carries over to a state with the same log and the same best.
proof fn lemma_best_ok_transfer(pre: Traversal, post: Traversal)
    requires
        post.answers@ == pre.answers@,
        post.best == pre.best,
        pre.best_ok(),
    ensures
        post.best_ok(),
{
    match post.best {
        None => {
        },
        Some(h) => {
            let k = choose|k: int|
                0 <= k < pre.answers@.len() && #[trigger] pre.answers@[k] == (
                h.primitive as int,
                Some(h.t_bits),
                );
            assert(post.answers@[k] == (h.primitive as int, Some(h.t_bits)));
        },
    }
}

/// An upper bound on the nodes of the subtree a waiting node still owes:
/// a binary tree over `c` slots has at most `2c - 1` nodes.
pub open spec fn node_weight(bvh: &BVH, node: int) -> int {
    2 * bvh.count_of(node) - 1
}

/// Equal stack prefixes owe equal work.
proof fn lemma_stack_weight_congruent(pre: Traversal, post: Traversal, bvh: &BVH, upto: int)
    requires
        upto <= pre.stack.len(),
        upto <= post.stack.len(),
        forall|k: int| 0 <= k < upto ==> #[trigger] post.stack[k] == pre.stack[k],
    ensures
        post.stack_weight(bvh, upto) == pre.stack_weight(bvh, upto),
    decreases upto,
{
    if upto > 0 {
        lemma_stack_weight_congruent(pre, post, bvh, upto - 1);
    }
}

/// Every waiting node owes at least one unit of work.
proof fn lemma_stack_weight_nonneg(tr: Traversal, bvh: &BVH, upto: int)
    requires
        bvh.wf(),
        upto <= tr.stack.len(),
        forall|k: int| 0 <= k < tr.stack.len() ==> #[trigger] tr.stack[k] < bvh.nodes_used,
    ensures
        tr.stack_weight(bvh, upto) >= 0,
    decreases upto,
{
    if upto > 0 {
        lemma_stack_weight_nonneg(tr, bvh, upto - 1);
        assert(bvh.wf_node(tr.stack[upto - 1] as int));
    }
}

impl Traversal {
    /// Slot `s` is covered by a node still waiting on the stack.
    pub open spec fn stack_live(&self, bvh: &BVH, s: int) -> bool {
        exists|k: int|
            0 <= k < self.stack.len() && bvh.in_range(#[trigger] self.stack[k] as int, s)
    }

    /// Slot `s` is covered by the node the machine is currently processing.
    pub open spec fn phase_live(&self, bvh: &BVH, s: int) -> bool {
        match self.phase {
            Phase::Visit { node } => bvh.in_range(node as int, s),
            Phase::Leaf { node, next } => next <= s < bvh.first_of(node as int) + bvh.count_of(
                node as int,
            ),
            Phase::Done => false,
        }
    }

    /// Slot `s` will still be reached by the traversal.
    pub open spec fn live(&self, bvh: &BVH, s: int) -> bool {
        self.stack_live(bvh, s) || self.phase_live(bvh, s)
    }

    /// The primitive in slot `s` has been intersected and reported.
    pub open spec fn answered(&self, bvh: &BVH, s: int) -> bool {
        exists|k: int|
            0 <= k < self.answers@.len() && (#[trigger] self.answers@[k]).0
                == bvh.primitive_indices[s] as int
    }

    /// Slot `s` sits under a node whose box test reported a miss.
    pub open spec fn pruned(&self, bvh: &BVH, s: int) -> bool {
        exists|nd: int|
            #[trigger] self.box_misses@.contains(nd) && 0 <= nd < bvh.nodes_used && bvh.in_range(
                nd,
                s,
            )
    }

    pub open spec fn phase_ok(&self, bvh: &BVH) -> bool {
        match self.phase {
            Phase::Visit { node } => node < bvh.nodes_used && !bvh.is_leaf_node(node as int),
            Phase::Leaf { node, next } => node < bvh.nodes_used && bvh.is_leaf_node(node as int)
                && bvh.first_of(node as int) <= next < bvh.first_of(node as int) + bvh.count_of(
                node as int,
            ),
            Phase::Done => self.stack.len() == 0,
        }
    }

    /// The running minimum is exactly the minimum of everything reported.
    pub open spec fn best_ok(&self) -> bool {
        match self.best {
            None => forall|k: int|
                0 <= k < self.answers@.len() ==> (#[trigger] self.answers@[k]).1 is None,
            Some(h) => {
                &&& exists|k: int|
                    0 <= k < self.answers@.len() && #[trigger] self.answers@[k] == (
                    h.primitive as int,
                    Some(h.t_bits),
                    )
                &&& forall|k: int|
                    0 <= k < self.answers@.len() ==> opt_le(
                        h.t_bits,
                        (#[trigger] self.answers@[k]).1,
                    )
            },
        }
    }

    /// Invariant of the machine between two steps: every slot of the
    /// primitive-index array is either still ahead of the traversal,
    /// already answered, or under a dismissed box.
    pub open spec fn inv(&self, bvh: &BVH) -> bool {
        &&& bvh.wf()
        &&& forall|k: int| 0 <= k < self.stack.len() ==> #[trigger] self.stack[k] < bvh.nodes_used
        &&& self.phase_ok(bvh)
        &&& self.best_ok()
        &&& forall|k: int|
            0 <= k < self.answers@.len() ==> 0 <= (#[trigger] self.answers@[k]).0
                < bvh.prim_count()
        &&& forall|s: int|
            0 <= s < bvh.prim_count() ==> #[trigger] self.live(bvh, s) || self.answered(bvh, s)
                || self.pruned(bvh, s)
    }

    /// The node the machine is waiting on in `Visit` phase.
    pub open spec fn visit_node(&self) -> int {
        match self.phase {
            Phase::Visit { node } => node as int,
            _ => -1,
        }
    }

    /// The slot the machine is waiting on in `Leaf` phase.
    pub open spec fn leaf_slot(&self) -> int {
        match self.phase {
            Phase::Leaf { node: _, next } => next as int,
            _ => -1,
        }
    }

    /// Work still owed to the nodes waiting on the first `upto` stack
    /// entries.
    pub open spec fn stack_weight(&self, bvh: &BVH, upto: int) -> int
        decreases upto,
    {
        if upto <= 0 {
            0
        } else {
            self.stack_weight(bvh, upto - 1) + node_weight(bvh, self.stack[upto - 1] as int)
        }
    }

    /// Work still owed to the node being processed.
    pub open spec fn phase_weight(&self, bvh: &BVH) -> int {
        match self.phase {
            Phase::Visit { node } => node_weight(bvh, node as int),
            Phase::Leaf { node, next } => bvh.first_of(node as int) + bvh.count_of(node as int)
                - next,
            Phase::Done => 0,
        }
    }

    /// How much work the traversal still has ahead. Every answered query
    /// strictly decreases it (see the ensures of [`Traversal::answer_boxes`]
    /// and [`Traversal::answer_primitive`]), so a loop that keeps answering
    /// reaches `Done` after finitely many steps.
    pub open spec fn measure(&self, bvh: &BVH) -> int {
        self.stack_weight(bvh, self.stack.len() as int) + self.phase_weight(bvh)
    }

    /// The measure never goes below zero.
    pub proof fn lemma_measure_nonneg(&self, bvh: &BVH)
        requires
            self.inv(bvh),
        ensures
            self.measure(bvh) >= 0,
            self.phase_weight(bvh) >= 0,
    {
        lemma_stack_weight_nonneg(*self, bvh, self.stack.len() as int);
        match self.phase {
            Phase::Visit { node } => {
                assert(bvh.wf_node(node as int));
            },
            Phase::Leaf { node, .. } => {
                assert(bvh.wf_node(node as int));
            },
            Phase::Done => {
            },
        }
    }

    /// Sets the phase to process `node`: straight into its slot range for
    /// a leaf, or waiting for its children's box tests for an internal
    /// node. Private plumbing shared by the public transitions.
    fn enter(&mut self, bvh: &BVH, node: usize)
        requires
            bvh.wf(),
            node < bvh.nodes_used,
            forall|k: int|
                0 <= k < old(self).stack.len() ==> #[trigger] old(self).stack[k] < bvh.nodes_used,
            old(self).best_ok(),
            forall|k: int|
                0 <= k < old(self).answers@.len() ==> 0 <= (#[trigger] old(self).answers@[k]).0
                    < bvh.prim_count(),
            forall|s: int|
                0 <= s < bvh.prim_count() ==> old(self).stack_live(bvh, s) || bvh.in_range(
                    node as int,
                    s,
                ) || old(self).answered(bvh, s) || old(self).pruned(bvh, s),
        ensures
            final(self).inv(bvh),
            final(self).stack@ == old(self).stack@,
            final(self).answers@ == old(self).answers@,
            final(self).box_misses@ == old(self).box_misses@,
            final(self).best == old(self).best,
            final(self).phase_weight(bvh) <= node_weight(bvh, node as int),
    {
        proof {
            assert(bvh.wf_node(node as int));
        }
        let n = bvh.nodes[node];
        if n.primitives_count > 0 {
            self.phase = Phase::Leaf { node, next: n.left_node_or_primitive_index };
        } else {
            self.phase = Phase::Visit { node };
        }
        proof {
            lemma_best_ok_transfer(*old(self), *self);
            assert forall|s: int|
                0 <= s < bvh.prim_count() implies #[trigger] self.live(bvh, s) || self.answered(
                bvh,
                s,
            ) || self.pruned(bvh, s) by {
                if old(self).stack_live(bvh, s) {
                    lemma_stack_live_transfer(*old(self), *self, bvh, s);
                } else if bvh.in_range(node as int, s) {
                    assert(self.phase_live(bvh, s));
                } else if old(self).answered(bvh, s) {
                    lemma_answered_transfer(*old(self), *self, bvh, s);
                } else {
                    lemma_pruned_transfer(*old(self), *self, bvh, s);
                }
            }
        }
    }

    /// Moves on after the current node is finished or dismissed: continues
    /// with the next node waiting on the stack, or finishes.
    fn pop_to_next(&mut self, bvh: &BVH)
        requires
            bvh.wf(),
            forall|k: int|
                0 <= k < old(self).stack.len() ==> #[trigger] old(self).stack[k] < bvh.nodes_used,
            old(self).best_ok(),
            forall|k: int|
                0 <= k < old(self).answers@.len() ==> 0 <= (#[trigger] old(self).answers@[k]).0
                    < bvh.prim_count(),
            forall|s: int|
                0 <= s < bvh.prim_count() ==> old(self).stack_live(bvh, s) || old(self).answered(
                    bvh,
                    s,
                ) || old(self).pruned(bvh, s),
        ensures
            final(self).inv(bvh),
            final(self).answers@ == old(self).answers@,
            final(self).box_misses@ == old(self).box_misses@,
            final(self).best == old(self).best,
            final(self).measure(bvh) <= old(self).stack_weight(
                bvh,
                old(self).stack.len() as int,
            ),
    {
        let popped = self.stack.pop();
        match popped {
            Some(top) => {
                proof {
                    let pre = old(self).stack@;
                    assert forall|k: int|
                        0 <= k < self.stack.len() implies #[trigger] self.stack[k]
                        < bvh.nodes_used by {
                        assert(self.stack[k] == old(self).stack[k]);
                    }
                    assert forall|s: int|
                        0 <= s < bvh.prim_count() implies self.stack_live(bvh, s) || bvh.in_range(
                        top as int,
                        s,
                    ) || self.answered(bvh, s) || self.pruned(bvh, s) by {
                        if old(self).stack_live(bvh, s) {
                            let k = choose|k: int|
                                0 <= k < old(self).stack.len() && bvh.in_range(
                                    #[trigger] old(self).stack[k] as int,
                                    s,
                                );
                            if k == pre.len() - 1 {
                                assert(bvh.in_range(top as int, s));
                            } else {
                                assert(self.stack[k] == pre[k]);
                                assert(bvh.in_range(self.stack[k] as int, s));
                            }
                        } else if old(self).answered(bvh, s) {
                            lemma_answered_transfer(*old(self), *self, bvh, s);
                        } else {
                            lemma_pruned_transfer(*old(self), *self, bvh, s);
                        }
                    }
                    lemma_best_ok_transfer(*old(self), *self);
                }
                self.enter(bvh, top);
                proof {
                    let shorter = old(self).stack.len() as int - 1;
                    assert forall|k: int|
                        0 <= k < shorter implies #[trigger] self.stack[k] == old(self).stack[k] by {
                    }
                    lemma_stack_weight_congruent(*old(self), *self, bvh, shorter);
                    assert(old(self).stack_weight(bvh, shorter + 1) == old(self).stack_weight(
                        bvh,
                        shorter,
                    ) + node_weight(bvh, old(self).stack[shorter] as int));
                }
            },
            None => {
                self.phase = Phase::Done;
                proof {
                    assert(self.stack_weight(bvh, 0) == 0);
                    assert(old(self).stack_weight(bvh, 0) == 0);
                    lemma_best_ok_transfer(*old(self), *self);
                    assert forall|s: int|
                        0 <= s < bvh.prim_count() implies #[trigger] self.live(bvh, s)
                        || self.answered(bvh, s) || self.pruned(bvh, s) by {
                        assert(old(self).stack.len() == 0);
                        assert(!old(self).stack_live(bvh, s));
                        if old(self).answered(bvh, s) {
                            lemma_answered_transfer(*old(self), *self, bvh, s);
                        } else {
                            lemma_pruned_transfer(*old(self), *self, bvh, s);
                        }
                    }
                }
            },
        }
    }

    /// A fresh traversal of `bvh`, about to process the root.
    pub fn new(bvh: &BVH) -> (tr: Traversal)
        requires
            bvh.wf(),
        ensures
            tr.inv(bvh),
            tr.answers@ == Seq::<(int, Option<u32>)>::empty(),
            tr.box_misses@ == Set::<int>::empty(),
            tr.best == None::<HitRecord>,
    {
        let mut tr = Traversal {
            stack: Vec::new(),
            phase: Phase::Done,
            best: None,
            answers: Ghost(Seq::empty()),
            box_misses: Ghost(Set::empty()),
        };
        proof {
            assert forall|s: int|
                0 <= s < bvh.prim_count() implies tr.stack_live(bvh, s) || bvh.in_range(0, s)
                || tr.answered(bvh, s) || tr.pruned(bvh, s) by {
                assert(bvh.in_range(0, s));
            }
        }
        let root = bvh.root_node_index;
        tr.enter(bvh, root);
        tr
    }

    /// The next test the geometry kernel must perform.
    pub fn query(&self, bvh: &BVH) -> (q: TraversalQuery)
        requires
            self.inv(bvh),
        ensures
            q == match self.phase {
                Phase::Visit { node } => TraversalQuery::Boxes {
                    left: bvh.nodes[node as int].left_node_or_primitive_index,
                    right: (bvh.nodes[node as int].left_node_or_primitive_index + 1) as usize,
                },
                Phase::Leaf { node: _, next } => TraversalQuery::Primitive {
                    primitive: bvh.primitive_indices[next as int],
                },
                Phase::Done => TraversalQuery::Done,
            },
    {
        match self.phase {
            Phase::Visit { node } => {
                proof {
                    assert(bvh.wf_node(node as int));
                }
                let left = bvh.nodes[node].left_node_or_primitive_index;
                TraversalQuery::Boxes { left, right: left + 1 }
            },
            Phase::Leaf { node, next } => {
                proof {
                    assert(bvh.wf_node(node as int));
                }
                TraversalQuery::Primitive { primitive: bvh.primitive_indices[next] }
            },
            Phase::Done => TraversalQuery::Done,
        }
    }

    /// Reports the slab tests of the two children of the current internal
    /// node. The machine walks into the
    /// left child whenever either box was hit, queues the right child only
    /// if its box was hit, and abandons the subtree only when both boxes
    /// missed.
    pub fn answer_boxes(&mut self, bvh: &BVH, left_hit: bool, right_hit: bool)
        requires
            old(self).inv(bvh),
            old(self).phase is Visit,
        ensures
            final(self).inv(bvh),
            final(self).answers@ == old(self).answers@,
            final(self).best == old(self).best,
            forall|nd: int|
                #[trigger] final(self).box_misses@.contains(nd) <==> (old(
                self,
                ).box_misses@.contains(nd) || (!left_hit && nd == bvh.nodes[old(
                self,
                ).visit_node()].left_node_or_primitive_index as int) || (!right_hit && nd
                    == bvh.nodes[old(self).visit_node()].left_node_or_primitive_index + 1)),
            final(self).measure(bvh) < old(self).measure(bvh),
    {
        let node = if let Phase::Visit { node } = self.phase {
            node
        } else {
            proof {
                assert(false);
            }
            0
        };
        proof {
            assert(bvh.wf_node(node as int));
        }
        let left = bvh.nodes[node].left_node_or_primitive_index;
        let right = left + 1;
        proof {
            if !left_hit {
                self.box_misses@ = self.box_misses@.insert(left as int);
            }
            if !right_hit {
                self.box_misses@ = self.box_misses@.insert(right as int);
            }
            // A slot of the node's range lies in one of the two children's
            // ranges; a dismissed child covers its part.
            assert(bvh.first_of(left as int) == bvh.first_of(node as int));
            assert(bvh.first_of(right as int) == bvh.first_of(left as int) + bvh.count_of(
                left as int,
            ));
            assert(bvh.count_of(left as int) + bvh.count_of(right as int) == bvh.count_of(
                node as int,
            ));
        }
        if !left_hit && !right_hit {
            proof {
                lemma_best_ok_transfer(*old(self), *self);
                assert forall|s: int|
                    0 <= s < bvh.prim_count() implies self.stack_live(bvh, s) || self.answered(
                    bvh,
                    s,
                ) || self.pruned(bvh, s) by {
                    assert(old(self).live(bvh, s) || old(self).answered(bvh, s) || old(
                        self,
                    ).pruned(bvh, s));
                    if old(self).stack_live(bvh, s) {
                        lemma_stack_live_transfer(*old(self), *self, bvh, s);
                    } else if old(self).phase_live(bvh, s) {
                        if s < bvh.first_of(right as int) {
                            assert(bvh.in_range(left as int, s));
                            assert(self.box_misses@.contains(left as int));
                            assert(self.pruned(bvh, s));
                        } else {
                            assert(bvh.in_range(right as int, s));
                            assert(self.box_misses@.contains(right as int));
                            assert(self.pruned(bvh, s));
                        }
                    } else if old(self).answered(bvh, s) {
                        lemma_answered_transfer(*old(self), *self, bvh, s);
                    } else {
                        lemma_pruned_transfer(*old(self), *self, bvh, s);
                    }
                }
            }
            let ghost mid = *self;
            self.pop_to_next(bvh);
            proof {
                assert forall|k: int|
                    0 <= k < old(self).stack.len() implies #[trigger] mid.stack[k] == old(
                    self,
                ).stack[k] by {
                }
                lemma_stack_weight_congruent(*old(self), mid, bvh, old(self).stack.len() as int);
            }
        } else {
            if right_hit {
                self.stack.push(right);
            }
            let ghost mid = *self;
            proof {
                lemma_best_ok_transfer(*old(self), *self);
                assert forall|k: int|
                    0 <= k < self.stack.len() implies #[trigger] self.stack[k]
                    < bvh.nodes_used by {
                    if k < old(self).stack.len() {
                        assert(self.stack[k] == old(self).stack[k]);
                    } else {
                        assert(self.stack[k] == right);
                    }
                }
                assert forall|s: int|
                    0 <= s < bvh.prim_count() implies self.stack_live(bvh, s) || bvh.in_range(
                    left as int,
                    s,
                ) || self.answered(bvh, s) || self.pruned(bvh, s) by {
                    assert(old(self).live(bvh, s) || old(self).answered(bvh, s) || old(
                        self,
                    ).pruned(bvh, s));
                    if old(self).stack_live(bvh, s) {
                        let pre = old(self).stack@;
                        let k = choose|k: int|
                            0 <= k < old(self).stack.len() && bvh.in_range(
                                #[trigger] old(self).stack[k] as int,
                                s,
                            );
                        assert(self.stack[k] == pre[k]);
                        assert(bvh.in_range(self.stack[k] as int, s));
                        assert(self.stack_live(bvh, s));
                    } else if old(self).phase_live(bvh, s) {
                        if s < bvh.first_of(right as int) {
                            assert(bvh.in_range(left as int, s));
                        } else {
                            assert(bvh.in_range(right as int, s));
                            if right_hit {
                                assert(self.stack[self.stack.len() - 1] == right);
                                assert(bvh.in_range(
                                    self.stack[self.stack.len() - 1] as int,
                                    s,
                                ));
                                assert(self.stack_live(bvh, s));
                            } else {
                                assert(self.box_misses@.contains(right as int));
                                assert(self.pruned(bvh, s));
                            }
                        }
                    } else if old(self).answered(bvh, s) {
                        lemma_answered_transfer(*old(self), *self, bvh, s);
                    } else {
                        lemma_pruned_transfer(*old(self), *self, bvh, s);
                    }
                }
            }
            self.enter(bvh, left);
            proof {
                let pre_len = old(self).stack.len() as int;
                assert forall|k: int|
                    0 <= k < pre_len implies #[trigger] mid.stack[k] == old(self).stack[k] by {
                }
                lemma_stack_weight_congruent(*old(self), mid, bvh, pre_len);
                assert forall|k: int|
                    0 <= k < mid.stack.len() implies #[trigger] self.stack[k] == mid.stack[k] by {
                }
                lemma_stack_weight_congruent(mid, *self, bvh, mid.stack.len() as int);
                if right_hit {
                    assert(mid.stack_weight(bvh, pre_len + 1) == mid.stack_weight(bvh, pre_len)
                        + node_weight(bvh, mid.stack[pre_len] as int));
                }
            }
        }
    }

    /// Reports the intersection test of the primitive the machine asked
    /// for: `None` for a miss, or the hit's parametric distance as the bit
    /// pattern of the positive finite `f32`. A strictly closer hit
    /// replaces the running best; on a tie the earlier hit is kept.
    pub fn answer_primitive(&mut self, bvh: &BVH, t_bits: Option<u32>)
        requires
            old(self).inv(bvh),
            old(self).phase is Leaf,
        ensures
            final(self).inv(bvh),
            final(self).box_misses@ == old(self).box_misses@,
            final(self).answers@ == old(self).answers@.push(
                (bvh.primitive_indices[old(self).leaf_slot()] as int, t_bits),
            ),
            final(self).best == match t_bits {
                Some(tv) => match old(self).best {
                    None => Some(
                        HitRecord {
                            primitive: bvh.primitive_indices[old(self).leaf_slot()],
                            t_bits: tv,
                        },
                    ),
                    Some(h) => if tv < h.t_bits {
                        Some(
                            HitRecord {
                                primitive: bvh.primitive_indices[old(self).leaf_slot()],
                                t_bits: tv,
                            },
                        )
                    } else {
                        Some(h)
                    },
                },
                None => old(self).best,
            },
            final(self).measure(bvh) < old(self).measure(bvh),
    {
        let (node, next) = if let Phase::Leaf { node, next } = self.phase {
            (node, next)
        } else {
            proof {
                assert(false);
            }
            (0, 0)
        };
        proof {
            assert(bvh.wf_node(node as int));
        }
        let p = self.primitive_at(bvh, next);
        proof {
            self.answers@ = self.answers@.push((p as int, t_bits));
        }
        if let Some(tv) = t_bits {
            let replace = match self.best {
                None => true,
                Some(h) => tv < h.t_bits,
            };
            if replace {
                self.best = Some(HitRecord { primitive: p, t_bits: tv });
            }
        }
        let first = bvh.nodes[node].left_node_or_primitive_index;
        let count = bvh.nodes[node].primitives_count;
        if next + 1 < first + count {
            self.phase = Phase::Leaf { node, next: next + 1 };
            proof {
                assert forall|k: int|
                    0 <= k < old(self).stack.len() implies #[trigger] self.stack[k] == old(
                    self,
                ).stack[k] by {
                }
                lemma_stack_weight_congruent(*old(self), *self, bvh, old(self).stack.len() as int);
                self.lemma_after_answer(bvh, old(self), p as int, t_bits);
                assert forall|s: int|
                    0 <= s < bvh.prim_count() implies #[trigger] self.live(bvh, s)
                    || self.answered(bvh, s) || self.pruned(bvh, s) by {
                    assert(old(self).live(bvh, s) || old(self).answered(bvh, s) || old(
                        self,
                    ).pruned(bvh, s));
                    if old(self).stack_live(bvh, s) {
                        lemma_stack_live_transfer(*old(self), *self, bvh, s);
                    } else if old(self).phase_live(bvh, s) {
                        if s == next {
                            assert(self.answers@[self.answers@.len() - 1].0
                                == bvh.primitive_indices[s] as int);
                            assert(self.answered(bvh, s));
                        } else {
                            assert(self.phase_live(bvh, s));
                        }
                    } else if old(self).answered(bvh, s) {
                        lemma_answered_transfer(*old(self), *self, bvh, s);
                    } else {
                        lemma_pruned_transfer(*old(self), *self, bvh, s);
                    }
                }
            }
        } else {
            proof {
                self.lemma_after_answer(bvh, old(self), p as int, t_bits);
                assert forall|s: int|
                    0 <= s < bvh.prim_count() implies self.stack_live(bvh, s) || self.answered(
                    bvh,
                    s,
                ) || self.pruned(bvh, s) by {
                    assert(old(self).live(bvh, s) || old(self).answered(bvh, s) || old(
                        self,
                    ).pruned(bvh, s));
                    if old(self).stack_live(bvh, s) {
                        lemma_stack_live_transfer(*old(self), *self, bvh, s);
                    } else if old(self).phase_live(bvh, s) {
                        assert(s == next);
                        assert(self.answers@[self.answers@.len() - 1].0
                            == bvh.primitive_indices[s] as int);
                        assert(self.answered(bvh, s));
                    } else if old(self).answered(bvh, s) {
                        lemma_answered_transfer(*old(self), *self, bvh, s);
                    } else {
                        lemma_pruned_transfer(*old(self), *self, bvh, s);
                    }
                }
            }
            let ghost mid = *self;
            self.pop_to_next(bvh);
            proof {
                assert forall|k: int|
                    0 <= k < old(self).stack.len() implies #[trigger] mid.stack[k] == old(
                    self,
                ).stack[k] by {
                }
                lemma_stack_weight_congruent(*old(self), mid, bvh, old(self).stack.len() as int);
            }
        }
    }

    /// `best_ok` survives appending one reported answer and taking the
    /// running minimum.
    proof fn lemma_after_answer(&self, bvh: &BVH, pre: &Traversal, p: int, t_bits: Option<u32>)
        requires
            pre.best_ok(),
            self.answers@ == pre.answers@.push((p, t_bits)),
            self.best == match t_bits {
                Some(tv) => match pre.best {
                    None => Some(HitRecord { primitive: p as usize, t_bits: tv }),
                    Some(h) => if tv < h.t_bits {
                        Some(HitRecord { primitive: p as usize, t_bits: tv })
                    } else {
                        Some(h)
                    },
                },
                None => pre.best,
            },
            0 <= p < usize::MAX,
        ensures
            self.best_ok(),
    {
        let post = self.answers@;
        let n = pre.answers@.len() as int;
        assert(post.len() == n + 1);
        assert(post[n] == (p, t_bits));
        assert(forall|k: int| 0 <= k < n ==> post[k] == pre.answers@[k]);
        match self.best {
            None => {
                assert(t_bits is None);
            },
            Some(h) => {
                match pre.best {
                    None => {
                        assert(post[n] == (h.primitive as int, Some(h.t_bits)));
                    },
                    Some(h0) => {
                        if h == h0 {
                            let k0 = choose|k: int|
                                0 <= k < n && #[trigger] pre.answers@[k] == (
                                h0.primitive as int,
                                Some(h0.t_bits),
                                );
                            assert(post[k0] == (h.primitive as int, Some(h.t_bits)));
                        } else {
                            assert(post[n] == (h.primitive as int, Some(h.t_bits)));
                        }
                    },
                }
            },
        }
    }

    /// The primitive in slot `next` of the index array.
    fn primitive_at(&self, bvh: &BVH, next: usize) -> (p: usize)
        requires
            bvh.wf(),
            next < bvh.prim_count(),
        ensures
            p == bvh.primitive_indices[next as int],
            p < bvh.prim_count(),
    {
        bvh.primitive_indices[next]
    }

    /// The closest hit reported so far; the traversal's result once
    /// [`Traversal::query`] answers `Done`.
    pub fn result(&self) -> (r: Option<HitRecord>)
        ensures
            r == self.best,
    {
        self.best
    }
}

/// Traversal with every test already in hand: `box_hits[i]` answers the
/// slab test of node `i`'s bounding box, `prim_hits[p]` the intersection
/// of primitive `p`. The whole loop is verified: it terminates, and —
/// whenever the box tests are conservative, that is, no primitive under a
/// node whose box missed has a hit (the geometric fact the caller owns) —
/// the result is exactly what a linear scan over all primitives finds.
pub fn traverse_with(bvh: &BVH, box_hits: &Vec<bool>, prim_hits: &Vec<Option<u32>>) -> (r: Option<
    HitRecord,
>)
    requires
        bvh.wf(),
        box_hits.len() >= bvh.nodes_used,
        prim_hits.len() == bvh.prim_count(),
    ensures
        (forall|nd: int, s: int|
            0 <= nd < bvh.nodes_used && !box_hits[nd] && #[trigger] bvh.in_range(nd, s) && 0 <= s
                < bvh.prim_count() ==> prim_hits[bvh.primitive_indices[s] as int] is None)
            ==> match r {
            None => forall|q: int|
                0 <= q < prim_hits.len() ==> (#[trigger] prim_hits[q]) is None,
            Some(h) => {
                &&& 0 <= h.primitive < prim_hits.len()
                &&& prim_hits[h.primitive as int] == Some(h.t_bits)
                &&& forall|q: int|
                    0 <= q < prim_hits.len() ==> opt_le(h.t_bits, #[trigger] prim_hits[q])
            },
        },
{
    let mut tr = Traversal::new(bvh);
    loop
        invariant_except_break
            tr.inv(bvh),
            bvh.wf(),
            box_hits.len() >= bvh.nodes_used,
            prim_hits.len() == bvh.prim_count(),
            forall|k: int|
                0 <= k < tr.answers@.len() ==> (#[trigger] tr.answers@[k]).1
                    == prim_hits[tr.answers@[k].0],
            forall|nd: int|
                #[trigger] tr.box_misses@.contains(nd) ==> 0 <= nd < bvh.nodes_used
                    && !box_hits[nd],
        ensures
            tr.inv(bvh),
            tr.phase is Done,
            prim_hits.len() == bvh.prim_count(),
            forall|k: int|
                0 <= k < tr.answers@.len() ==> (#[trigger] tr.answers@[k]).1
                    == prim_hits[tr.answers@[k].0],
            forall|nd: int|
                #[trigger] tr.box_misses@.contains(nd) ==> 0 <= nd < bvh.nodes_used
                    && !box_hits[nd],
        decreases tr.measure(bvh),
    {
        proof {
            tr.lemma_measure_nonneg(bvh);
        }
        match tr.query(bvh) {
            TraversalQuery::Boxes { left, right } => {
                proof {
                    assert(tr.phase is Visit);
                    assert(bvh.wf_node(tr.visit_node()));
                }
                let left_hit = box_hits[left];
                let right_hit = box_hits[right];
                tr.answer_boxes(bvh, left_hit, right_hit);
                proof {
                    tr.lemma_measure_nonneg(bvh);
                }
            },
            TraversalQuery::Primitive { primitive } => {
                proof {
                    assert(tr.phase is Leaf);
                    let node = match tr.phase {
                        Phase::Leaf { node, .. } => node as int,
                        _ => 0,
                    };
                    assert(bvh.wf_node(node));
                }
                let t = prim_hits[primitive];
                tr.answer_primitive(bvh, t);
                proof {
                    tr.lemma_measure_nonneg(bvh);
                }
            },
            TraversalQuery::Done => {
                break;
            },
        }
    }
    proof {
        if forall|nd: int, s: int|
            0 <= nd < bvh.nodes_used && !box_hits[nd] && #[trigger] bvh.in_range(nd, s) && 0 <= s
                < bvh.prim_count() ==> prim_hits[bvh.primitive_indices[s] as int] is None {
            assert forall|k: int|
                0 <= k < tr.answers@.len() implies (#[trigger] tr.answers@[k]).1
                == prim_hits@[tr.answers@[k].0] by {}
            assert forall|nd: int, s: int|
                tr.box_misses@.contains(nd) && 0 <= nd < bvh.nodes_used && #[trigger] bvh.in_range(
                    nd,
                    s,
                ) && 0 <= s < bvh.prim_count() implies prim_hits@[bvh.primitive_indices[s] as int]
                is None by {
                assert(!box_hits[nd]);
            }
            lemma_traversal_matches_linear_scan(tr, *bvh, prim_hits@);
        }
    }
    tr.result()
}

/// The ground-truth cross-check of the traversal: against any fixed
/// per-primitive intersection outcome (`truth`, what a linear scan over
/// the primitives would see), a finished traversal whose reported
/// intersections agree with `truth`, and whose reported box misses were
/// honest — no primitive under a dismissed node hits — returns exactly
/// the result of the linear scan: a hit if and only if some primitive
/// hits, and then with the minimal distance, attained by the returned
/// primitive. Whether a box test is honest is a fact of floating-point
/// geometry (a box contains its primitives), which the caller owns.
pub proof fn lemma_traversal_matches_linear_scan(tr: Traversal, bvh: BVH, truth: Seq<Option<u32>>)
    requires
        tr.inv(&bvh),
        tr.phase is Done,
        truth.len() == bvh.prim_count(),
        forall|k: int|
            0 <= k < tr.answers@.len() ==> (#[trigger] tr.answers@[k]).1 == truth[tr.answers@[k].0],
        forall|nd: int, s: int|
            tr.box_misses@.contains(nd) && 0 <= nd < bvh.nodes_used && #[trigger] bvh.in_range(
                nd,
                s,
            ) && 0 <= s < bvh.prim_count() ==> truth[bvh.primitive_indices[s] as int] is None,
    ensures
        match tr.best {
            None => forall|q: int| 0 <= q < truth.len() ==> (#[trigger] truth[q]) is None,
            Some(h) => {
                &&& 0 <= h.primitive < truth.len()
                &&& truth[h.primitive as int] == Some(h.t_bits)
                &&& forall|q: int| 0 <= q < truth.len() ==> opt_le(h.t_bits, #[trigger] truth[q])
            },
        },
{
    // A finished traversal has nothing live, so every slot was either
    // answered or pruned.
    assert forall|q: int|
        0 <= q < truth.len() && !(exists|k: int|
            0 <= k < tr.answers@.len() && (#[trigger] tr.answers@[k]).0 == q) implies truth[q]
        is None by {
        // Find the slot that holds primitive q: the index array is a
        // permutation, so one exists.
        assert(crate::bvh::seq_covers(bvh.primitive_indices@, q));
        let s = choose|s: int|
            0 <= s < bvh.primitive_indices@.len() && #[trigger] bvh.primitive_indices@[s] == q;
        assert(tr.live(&bvh, s) || tr.answered(&bvh, s) || tr.pruned(&bvh, s));
        assert(!tr.stack_live(&bvh, s));
        assert(!tr.phase_live(&bvh, s));
        if tr.answered(&bvh, s) {
            let k = choose|k: int|
                0 <= k < tr.answers@.len() && (#[trigger] tr.answers@[k]).0
                    == bvh.primitive_indices[s] as int;
            assert(tr.answers@[k].0 == q);
            assert(false);
        } else {
            assert(tr.pruned(&bvh, s));
            let nd = choose|nd: int|
                #[trigger] tr.box_misses@.contains(nd) && 0 <= nd < bvh.nodes_used
                    && bvh.in_range(nd, s);
            assert(bvh.in_range(nd, s));
            assert(truth[bvh.primitive_indices[s] as int] is None);
        }
    }
    match tr.best {
        None => {
            assert forall|q: int| 0 <= q < truth.len() implies (#[trigger] truth[q]) is None by {
                if exists|k: int|
                    0 <= k < tr.answers@.len() && (#[trigger] tr.answers@[k]).0 == q {
                    let k = choose|k: int|
                        0 <= k < tr.answers@.len() && (#[trigger] tr.answers@[k]).0 == q;
                    assert(tr.answers@[k].1 is None);
                    assert(truth[q] is None);
                }
            }
        },
        Some(h) => {
            let kb = choose|k: int|
                0 <= k < tr.answers@.len() && #[trigger] tr.answers@[k] == (
                h.primitive as int,
                Some(h.t_bits),
                );
            assert(truth[h.primitive as int] == Some(h.t_bits));
            assert forall|q: int| 0 <= q < truth.len() implies opt_le(
                h.t_bits,
                #[trigger] truth[q],
            ) by {
                if truth[q] is Some {
                    if exists|k: int|
                        0 <= k < tr.answers@.len() && (#[trigger] tr.answers@[k]).0 == q {
                        let k = choose|k: int|
                            0 <= k < tr.answers@.len() && (#[trigger] tr.answers@[k]).0 == q;
                        assert(tr.answers@[k].1 == truth[q]);
                        assert(opt_le(h.t_bits, tr.answers@[k].1));
                    }
                }
            }
        },
    }
}

} // verus!
