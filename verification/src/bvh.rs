use vstd::prelude::*;

verus! {

/// One node of the bounding-volume hierarchy, in an implicit layout:
/// a node is a leaf exactly when `primitives_count > 0`, and then
/// `left_node_or_primitive_index` is the first slot of its contiguous range
/// in the primitive-index array. An internal node stores the index of its
/// left child; the right child is always the next node.
///
/// The node's bounding box itself is floating-point data and lives with the
/// unverified geometry kernel, in an array parallel to `BVH::nodes`.
#[derive(Clone, Copy)]
pub struct Node {
    pub left_node_or_primitive_index: usize,
    pub primitives_count: usize,
}

impl Node {
    pub fn new() -> (n: Node)
        ensures
            n.left_node_or_primitive_index == 0,
            n.primitives_count == 0,
    {
        Node { left_node_or_primitive_index: 0, primitives_count: 0 }
    }

    pub fn is_leaf(&self) -> (b: bool)
        ensures
            b == (self.primitives_count > 0),
    {
        self.primitives_count > 0
    }
}

/// Some slot of `s` holds the value `p`.
pub open spec fn seq_covers(s: Seq<usize>, p: int) -> bool {
    exists|i: int| 0 <= i < s.len() && #[trigger] s[i] == p
}

/// Swapping two slots of a sequence preserves which values it covers.
proof fn lemma_swap_covers(pre: Seq<usize>, post: Seq<usize>, a: int, b: int)
    requires
        0 <= a < pre.len(),
        0 <= b < pre.len(),
        post == pre.update(a, pre[b]).update(b, pre[a]),
    ensures
        post.len() == pre.len(),
        forall|p: int| seq_covers(pre, p) ==> seq_covers(post, p),
{
    assert forall|p: int| seq_covers(pre, p) implies seq_covers(post, p) by {
        let s0 = choose|s0: int| 0 <= s0 < pre.len() && #[trigger] pre[s0] == p;
        if s0 == a {
            assert(post[b] == p);
        } else if s0 == b {
            assert(post[a] == p);
        } else {
            assert(post[s0] == p);
        }
    }
}

/// Two hierarchies whose first `upto` nodes agree on leafness and, for
/// leaves, on the owned slot count, have the same leaf tallies there.
proof fn lemma_counts_congruent(b1: &BVH, b2: &BVH, upto: int)
    requires
        forall|i: int|
            0 <= i < upto ==> (#[trigger] b2.is_leaf_node(i)) == b1.is_leaf_node(i) && (
            b1.is_leaf_node(i) ==> b2.count_of(i) == b1.count_of(i)),
    ensures
        b2.leaf_count(upto) == b1.leaf_count(upto),
        b2.leaf_slots(upto) == b1.leaf_slots(upto),
    decreases upto,
{
    if upto > 0 {
        lemma_counts_congruent(b1, b2, upto - 1);
    }
}

/// Changing one node shifts the leaf tallies by that node's own change.
proof fn lemma_counts_one_change(b1: &BVH, b2: &BVH, upto: int, k: int)
    requires
        0 <= k < upto,
        forall|i: int|
            0 <= i < upto && i != k ==> (#[trigger] b2.is_leaf_node(i)) == b1.is_leaf_node(i) && (
            b1.is_leaf_node(i) ==> b2.count_of(i) == b1.count_of(i)),
    ensures
        b2.leaf_count(upto) - b1.leaf_count(upto) == (if b2.is_leaf_node(k) {
            1int
        } else {
            0int
        }) - (if b1.is_leaf_node(k) {
            1int
        } else {
            0int
        }),
        b2.leaf_slots(upto) - b1.leaf_slots(upto) == b2.node_contribution(k)
            - b1.node_contribution(k),
    decreases upto,
{
    if upto - 1 == k {
        lemma_counts_congruent(b1, b2, k);
    } else {
        lemma_counts_one_change(b1, b2, upto - 1, k);
    }
}

/// Each leaf owns at least one slot, so the leaves cannot outnumber the
/// slots they own.
proof fn lemma_leaf_count_le_slots(b: &BVH, upto: int)
    requires
        forall|i: int| 0 <= i < upto ==> #[trigger] b.wf_node(i),
    ensures
        b.leaf_count(upto) <= b.leaf_slots(upto),
    decreases upto,
{
    if upto > 0 {
        lemma_leaf_count_le_slots(b, upto - 1);
        assert(b.wf_node(upto - 1));
    }
}

/// The index skeleton of the bounding-volume hierarchy: a binary tree over
/// a permutation of the primitive indices.
///
/// Invariants (see [`BVH::wf`]): the root covers the whole index range;
/// every leaf owns a contiguous, non-empty slot range; an internal node's
/// two children split its range exactly in two adjacent parts; and the
/// primitive-index array remains a permutation of `0 .. primitive count`.
pub struct BVH {
    pub nodes: Vec<Node>,
    pub primitive_indices: Vec<usize>,
    pub root_node_index: usize,
    pub nodes_used: usize,
    /// The slot range `(first, count)` each node covers. For a leaf this
    /// repeats the node's own fields; for an internal node it is the range
    /// the node covered when it was split.
    pub ranges: Ghost<Map<int, (int, int)>>,
}

impl BVH {
    /// Number of primitives the hierarchy was built over.
    pub open spec fn prim_count(&self) -> int {
        self.primitive_indices.len() as int
    }

    pub open spec fn first_of(&self, i: int) -> int {
        self.ranges@[i].0
    }

    pub open spec fn count_of(&self, i: int) -> int {
        self.ranges@[i].1
    }

    pub open spec fn is_leaf_node(&self, i: int) -> bool {
        self.nodes[i].primitives_count > 0
    }

    /// Slot `s` lies in the range node `i` covers.
    pub open spec fn in_range(&self, i: int, s: int) -> bool {
        self.first_of(i) <= s < self.first_of(i) + self.count_of(i)
    }

    /// Well-formedness of one allocated node.
    pub open spec fn wf_node(&self, i: int) -> bool {
        &&& self.ranges@.dom().contains(i)
        &&& 0 <= self.first_of(i)
        &&& self.first_of(i) + self.count_of(i) <= self.prim_count()
        &&& self.count_of(i) >= 1
        &&& if self.is_leaf_node(i) {
            &&& self.nodes[i].left_node_or_primitive_index == self.first_of(i)
            &&& self.nodes[i].primitives_count == self.count_of(i)
        } else {
            let l = self.nodes[i].left_node_or_primitive_index as int;
            &&& i < l
            &&& l + 1 < self.nodes_used
            &&& self.ranges@.dom().contains(l)
            &&& self.ranges@.dom().contains(l + 1)
            &&& self.first_of(l) == self.first_of(i)
            &&& self.first_of(l + 1) == self.first_of(l) + self.count_of(l)
            &&& self.count_of(l) >= 1
            &&& self.count_of(l + 1) >= 1
            &&& self.count_of(l) + self.count_of(l + 1) == self.count_of(i)
        }
    }

    /// What node `i` contributes to the total of slots owned by leaves.
    pub open spec fn node_contribution(&self, i: int) -> int {
        if self.is_leaf_node(i) {
            self.count_of(i)
        } else {
            0
        }
    }

    /// Number of leaves among the first `upto` allocated nodes.
    pub open spec fn leaf_count(&self, upto: int) -> int
        decreases upto,
    {
        if upto <= 0 {
            0
        } else {
            self.leaf_count(upto - 1) + if self.is_leaf_node(upto - 1) {
                1int
            } else {
                0int
            }
        }
    }

    /// Total number of slots owned by leaves among the first `upto` nodes.
    pub open spec fn leaf_slots(&self, upto: int) -> int
        decreases upto,
    {
        if upto <= 0 {
            0
        } else {
            self.leaf_slots(upto - 1) + self.node_contribution(upto - 1)
        }
    }

    /// Well-formedness of the whole hierarchy. The two counting clauses
    /// carry the node-budget argument: a binary tree has one internal node
    /// fewer than it has leaves, and every split keeps the slots owned by
    /// leaves at exactly the primitive count.
    pub open spec fn wf(&self) -> bool {
        &&& self.root_node_index == 0
        &&& 1 <= self.nodes_used <= self.nodes.len()
        &&& self.prim_count() >= 1
        &&& self.ranges@.dom().contains(0)
        &&& self.first_of(0) == 0
        &&& self.count_of(0) == self.prim_count()
        &&& forall|i: int| 0 <= i < self.nodes_used ==> #[trigger] self.wf_node(i)
        &&& forall|s: int|
            0 <= s < self.prim_count() ==> #[trigger] self.primitive_indices[s]
                < self.prim_count()
        &&& forall|p: int|
            0 <= p < self.prim_count() ==> seq_covers(#[trigger] self.primitive_indices@, p)
        &&& self.nodes_used == 2 * self.leaf_count(self.nodes_used as int) - 1
        &&& self.leaf_slots(self.nodes_used as int) == self.prim_count()
        &&& self.nodes.len() == 2 * self.prim_count() + 1
    }

    /// A fresh hierarchy over `primitive_count` primitives: the identity
    /// permutation and a single root leaf covering every slot. The node
    /// array is pre-sized to `2 * primitive_count + 1`, enough for any
    /// sequence of binary splits.
    pub fn new(primitive_count: usize) -> (bvh: BVH)
        requires
            1 <= primitive_count,
            2 * primitive_count + 1 <= usize::MAX,
        ensures
            bvh.wf(),
            bvh.prim_count() == primitive_count,
            bvh.nodes_used == 1,
            bvh.nodes.len() == 2 * primitive_count + 1,
            bvh.is_leaf_node(0),
            forall|s: int|
                0 <= s < primitive_count ==> #[trigger] bvh.primitive_indices[s] == s,
    {
        let mut primitive_indices: Vec<usize> = Vec::new();
        let mut k: usize = 0;
        while k < primitive_count
            invariant
                k <= primitive_count,
                primitive_indices.len() == k,
                forall|s: int| 0 <= s < k ==> #[trigger] primitive_indices[s] == s,
            decreases primitive_count - k,
        {
            primitive_indices.push(k);
            k = k + 1;
        }
        let node_capacity = 2 * primitive_count + 1;
        let mut nodes: Vec<Node> = Vec::new();
        let mut k: usize = 0;
        while k < node_capacity
            invariant
                k <= node_capacity,
                nodes.len() == k,
            decreases node_capacity - k,
        {
            nodes.push(Node::new());
            k = k + 1;
        }
        nodes[0] = Node { left_node_or_primitive_index: 0, primitives_count: primitive_count };
        let bvh = BVH {
            nodes,
            primitive_indices,
            root_node_index: 0,
            nodes_used: 1,
            ranges: Ghost(Map::empty().insert(0int, (0int, primitive_count as int))),
        };
        proof {
            assert forall|p: int|
                0 <= p < bvh.prim_count() implies seq_covers(bvh.primitive_indices@, p) by {
                assert(bvh.primitive_indices[p] == p);
            }
            assert(bvh.wf_node(0));
            assert(bvh.leaf_count(0) == 0);
            assert(bvh.leaf_count(1) == 1);
            assert(bvh.leaf_slots(0) == 0);
            assert(bvh.leaf_slots(1) == primitive_count);
        }
        bvh
    }

    /// Splits the given leaf in two, partitioning its slot range in place:
    /// primitives with `go_left[p] == true` (the build's "centroid left of
    /// the chosen plane" test) move to the front. If every primitive of the
    /// leaf falls on one side the split is degenerate and the node stays a
    /// leaf; otherwise two fresh child leaves are allocated next to each
    /// other and the node becomes internal.
    ///
    /// Slots outside the leaf's range are never touched, and the index
    /// array stays a permutation of the primitive indices.
    pub fn subdivide(&mut self, node_index: usize, go_left: &Vec<bool>) -> (children: Option<
        (usize, usize),
    >)
        requires
            old(self).wf(),
            node_index < old(self).nodes_used,
            old(self).is_leaf_node(node_index as int),
            go_left.len() == old(self).prim_count(),
        ensures
            final(self).wf(),
            final(self).prim_count() == old(self).prim_count(),
            final(self).nodes.len() == old(self).nodes.len(),
            final(self).first_of(node_index as int) == old(self).first_of(node_index as int),
            final(self).count_of(node_index as int) == old(self).count_of(node_index as int),
            forall|s: int|
                0 <= s < final(self).prim_count() && !old(self).in_range(node_index as int, s)
                    ==> #[trigger] final(self).primitive_indices[s] == old(self).primitive_indices[s],
            match children {
                None => {
                    &&& final(self).nodes@ == old(self).nodes@
                    &&& final(self).nodes_used == old(self).nodes_used
                    &&& final(self).ranges@ == old(self).ranges@
                    &&& (forall|s: int|
                        final(self).in_range(node_index as int, s) ==> #[trigger] go_left[final(self).primitive_indices[s] as int]) || (forall|s: int|
                        final(self).in_range(node_index as int, s) ==> !(#[trigger] go_left[final(self).primitive_indices[s] as int]))
                },
                Some(pair) => {
                    let l = pair.0 as int;
                    let r = pair.1 as int;
                    &&& l == old(self).nodes_used
                    &&& r == l + 1
                    &&& final(self).nodes_used == old(self).nodes_used + 2
                    &&& !final(self).is_leaf_node(node_index as int)
                    &&& final(self).nodes[node_index as int].left_node_or_primitive_index == l
                    &&& final(self).is_leaf_node(l)
                    &&& final(self).is_leaf_node(r)
                    &&& final(self).first_of(l) == final(self).first_of(node_index as int)
                    &&& final(self).first_of(r) == final(self).first_of(l) + final(self).count_of(l)
                    &&& final(self).count_of(l) + final(self).count_of(r) == final(self).count_of(
                        node_index as int,
                    )
                    &&& final(self).count_of(l) >= 1
                    &&& final(self).count_of(r) >= 1
                    &&& (forall|s: int|
                        final(self).in_range(l, s) ==> #[trigger] go_left[final(self).primitive_indices[s] as int])
                    &&& (forall|s: int|
                        final(self).in_range(r, s) ==> !(#[trigger] go_left[final(self).primitive_indices[s] as int]))
                },
            },
    {
        let node = self.nodes[node_index];
        let first = node.left_node_or_primitive_index;
        let count = node.primitives_count;
        proof {
            assert(old(self).wf_node(node_index as int));
            // There is always room for two more nodes: the constructor
            // sized the array for the worst case of the node budget.
            old(self).lemma_node_budget();
        }
        let ghost old_indices = self.primitive_indices@;

        // Two-pointer partition of the leaf's slot range by the split test.
        let mut i = first;
        let mut j = first + count;
        while i < j
            invariant
                first <= i <= j <= first + count,
                first + count <= self.prim_count(),
                go_left.len() == self.prim_count(),
                self.primitive_indices.len() == old_indices.len(),
                forall|s: int|
                    0 <= s < self.prim_count() ==> #[trigger] self.primitive_indices[s]
                        < self.prim_count(),
                forall|p: int|
                    0 <= p < self.prim_count() ==> seq_covers(
                        #[trigger] self.primitive_indices@,
                        p,
                    ),
                forall|s: int|
                    0 <= s < self.prim_count() && !(first <= s < first + count)
                        ==> #[trigger] self.primitive_indices[s] == old_indices[s],
                forall|s: int|
                    first <= s < i ==> #[trigger] go_left[self.primitive_indices[s] as int],
                forall|s: int|
                    j <= s < first + count ==> !(#[trigger] go_left[self.primitive_indices[s] as int]),
                self.nodes@ == old(self).nodes@,
                self.nodes_used == old(self).nodes_used,
                self.ranges@ == old(self).ranges@,
                self.root_node_index == old(self).root_node_index,
            decreases j - i,
        {
            let p = self.primitive_indices[i];
            if go_left[p] {
                i = i + 1;
            } else {
                let ghost pre = self.primitive_indices@;
                let ghost a = i as int;
                let ghost b = j - 1int;
                let q = self.primitive_indices[j - 1];
                self.primitive_indices[i] = q;
                self.primitive_indices[j - 1] = p;
                j = j - 1;
                proof {
                    assert(self.primitive_indices@ == pre.update(a, pre[b]).update(b, pre[a]));
                    lemma_swap_covers(pre, self.primitive_indices@, a, b);
                }
            }
        }

        let left_count = i - first;
        if left_count == 0 || left_count == count {
            proof {
                assert forall|k: int|
                    0 <= k < self.nodes_used implies #[trigger] self.wf_node(k) by {
                    assert(old(self).wf_node(k));
                }
                lemma_counts_congruent(old(self), self, self.nodes_used as int);
            }
            return None;
        }

        // Allocate the two children and turn the node into an internal one.
        let left_child = self.nodes_used;
        let right_child = left_child + 1;
        self.nodes_used = self.nodes_used + 2;
        self.nodes[left_child] = Node {
            left_node_or_primitive_index: first,
            primitives_count: left_count,
        };
        self.nodes[right_child] = Node {
            left_node_or_primitive_index: i,
            primitives_count: count - left_count,
        };
        self.nodes[node_index] = Node {
            left_node_or_primitive_index: left_child,
            primitives_count: 0,
        };
        proof {
            self.ranges@ = self.ranges@.insert(
                left_child as int,
                (first as int, left_count as int),
            ).insert(right_child as int, (i as int, (count - left_count) as int));
        }
        proof {
            assert forall|k: int| 0 <= k < self.nodes_used implies #[trigger] self.wf_node(k) by {
                if k < old(self).nodes_used {
                    assert(old(self).wf_node(k));
                    if k != node_index as int {
                        assert(self.nodes[k] == old(self).nodes[k]);
                        if !old(self).is_leaf_node(k) {
                            let l = self.nodes[k].left_node_or_primitive_index as int;
                            assert(old(self).ranges@.dom().contains(l));
                            assert(old(self).ranges@.dom().contains(l + 1));
                            assert(l != left_child as int && l != right_child as int);
                            assert(l + 1 != left_child as int && l + 1 != right_child as int);
                        }
                    }
                }
            }
            // The node budget: the split turns one leaf into an internal
            // node and two fresh leaves, so leaves go up by one and the
            // slots owned by leaves are conserved.
            let used_old = old(self).nodes_used as int;
            assert forall|i: int|
                0 <= i < used_old && i != node_index as int implies (#[trigger] self.is_leaf_node(
                i,
            )) == old(self).is_leaf_node(i) && (old(self).is_leaf_node(i) ==> self.count_of(i)
                == old(self).count_of(i)) by {
                assert(self.nodes[i] == old(self).nodes[i]);
            }
            lemma_counts_one_change(old(self), self, used_old, node_index as int);
            assert(self.leaf_count(used_old + 1) == self.leaf_count(used_old) + 1);
            assert(self.leaf_count(used_old + 2) == self.leaf_count(used_old + 1) + 1);
            assert(self.leaf_slots(used_old + 1) == self.leaf_slots(used_old)
                + self.count_of(left_child as int));
            assert(self.leaf_slots(used_old + 2) == self.leaf_slots(used_old + 1)
                + self.count_of(right_child as int));
        }
        Some((left_child, right_child))
    }

    /// Node `d` is `a` itself or lies in the subtree under `a`.
    pub open spec fn descendant(&self, a: int, d: int) -> bool
        decreases self.nodes_used - a,
        when self.wf() && 0 <= a < self.nodes_used
        via Self::descendant_decreases
    {
        if self.is_leaf_node(a) {
            a == d
        } else {
            let l = self.nodes[a].left_node_or_primitive_index as int;
            a == d || self.descendant(l, d) || self.descendant(l + 1, d)
        }
    }

    #[via_fn]
    proof fn descendant_decreases(&self, a: int, d: int) {
        assert(self.wf_node(a));
    }

    /// One half of the bounding invariant's index structure: a descendant's
    /// slot range lies within its ancestor's. With each node's bounding box
    /// built as the union of the boxes of the primitives in its range, a
    /// node therefore bounds every primitive under every descendant leaf.
    pub proof fn lemma_descendant_range_within(&self, a: int, d: int)
        requires
            self.wf(),
            0 <= a < self.nodes_used,
            self.descendant(a, d),
        ensures
            0 <= d < self.nodes_used,
            forall|s: int| self.in_range(d, s) ==> self.in_range(a, s),
        decreases self.nodes_used - a,
    {
        assert(self.wf_node(a));
        if self.is_leaf_node(a) {
        } else {
            let l = self.nodes[a].left_node_or_primitive_index as int;
            assert(self.wf_node(l));
            assert(self.wf_node(l + 1));
            if a == d {
            } else if self.descendant(l, d) {
                self.lemma_descendant_range_within(l, d);
            } else {
                self.lemma_descendant_range_within(l + 1, d);
            }
        }
    }

    /// The node budget the constructor pre-sizes for is never exceeded:
    /// however the leaves are split, a binary tree over at most
    /// `prim_count` leaves has at most `2 * prim_count - 1` nodes.
    pub proof fn lemma_node_budget(&self)
        requires
            self.wf(),
        ensures
            self.nodes_used <= 2 * self.prim_count() - 1,
    {
        lemma_leaf_count_le_slots(self, self.nodes_used as int);
    }

    /// The other half: every slot of a node's range belongs to some
    /// descendant leaf, so the union of the descendant leaves' ranges is
    /// exactly the node's range.
    pub proof fn lemma_node_range_covered_by_leaves(&self, a: int, s: int)
        requires
            self.wf(),
            0 <= a < self.nodes_used,
            self.in_range(a, s),
        ensures
            exists|d: int|
                self.descendant(a, d) && self.is_leaf_node(d) && #[trigger] self.in_range(d, s),
        decreases self.nodes_used - a,
    {
        assert(self.wf_node(a));
        if self.is_leaf_node(a) {
            assert(self.descendant(a, a) && self.is_leaf_node(a) && self.in_range(a, s));
        } else {
            let l = self.nodes[a].left_node_or_primitive_index as int;
            assert(self.wf_node(l));
            assert(self.wf_node(l + 1));
            if s < self.first_of(l) + self.count_of(l) {
                self.lemma_node_range_covered_by_leaves(l, s);
                let d = choose|d: int|
                    self.descendant(l, d) && self.is_leaf_node(d) && #[trigger] self.in_range(
                        d,
                        s,
                    );
                assert(self.descendant(a, d) && self.is_leaf_node(d) && self.in_range(d, s));
            } else {
                self.lemma_node_range_covered_by_leaves(l + 1, s);
                let d = choose|d: int|
                    self.descendant(l + 1, d) && self.is_leaf_node(d) && #[trigger] self.in_range(
                        d,
                        s,
                    );
                assert(self.descendant(a, d) && self.is_leaf_node(d) && self.in_range(d, s));
            }
        }
    }
}

} // verus!
