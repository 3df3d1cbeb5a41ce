use vstd::prelude::*;

use crate::key::Key;
use crate::node::Node;
use crate::node::NodeType;
use crate::node::all_children_none;
use crate::node::arena_ok;
use crate::node::insert_repaired;
use crate::node::sorted_insert_pos;
use crate::node::spec_descend;
use crate::node::keys_sorted;
use crate::node::lemma_has_children_all_some;
use crate::node::lemma_leaf_is_all_none;
use crate::node::lemma_next_is_child;
use crate::node::lemma_subrange_inv;
use crate::node::node_ok;
use crate::node::shared_children;
use crate::node::spec_next;
use crate::node::spec_search;
use vstd::pervasive::VecAdditionalExecFns;

verus! {

/// Every separator value stored in an arena of nodes.
pub open spec fn arena_values(nodes: Seq<Node>) -> Set<u64> {
    Set::new(
        |v: u64|
            exists|j: int, k: int|
                0 <= j < nodes.len() && 0 <= k < nodes[j].keys_vector@.len()
                    && nodes[j].keys_vector@[k].value == v,
    )
}

/// Appending a node whose values are already present leaves the stored value
/// set unchanged.
proof fn lemma_values_push(nodes: Seq<Node>, n: Node)
    requires
        forall|v: u64| n.spec_has_key(v) ==> arena_values(nodes).contains(v),
    ensures
        arena_values(nodes.push(n)) == arena_values(nodes),
{
    assert forall|v: u64| arena_values(nodes.push(n)).contains(v) implies arena_values(
        nodes,
    ).contains(v) by {
        let (j, k) = choose|j: int, k: int|
            0 <= j < nodes.push(n).len() && 0 <= k < nodes.push(n)[j].keys_vector@.len()
                && nodes.push(n)[j].keys_vector@[k].value == v;
        if j == nodes.len() {
            assert(n.spec_has_key(v));
        } else {
            assert(nodes[j].keys_vector@[k].value == v);
        }
    }
    assert forall|v: u64| arena_values(nodes).contains(v) implies arena_values(
        nodes.push(n),
    ).contains(v) by {
        let (j, k) = choose|j: int, k: int|
            0 <= j < nodes.len() && 0 <= k < nodes[j].keys_vector@.len()
                && nodes[j].keys_vector@[k].value == v;
        assert(nodes.push(n)[j].keys_vector@[k].value == v);
    }
    assert(arena_values(nodes.push(n)) =~= arena_values(nodes));
}

/// Replacing node `j` by one holding its old values plus `extra` makes the
/// stored value set grow by exactly `extra`.
proof fn lemma_values_update(nodes: Seq<Node>, j: int, n: Node, extra: u64)
    requires
        0 <= j < nodes.len(),
        forall|v: u64| nodes[j].spec_has_key(v) ==> n.spec_has_key(v),
        forall|v: u64| n.spec_has_key(v) ==> nodes[j].spec_has_key(v) || v == extra,
        n.spec_has_key(extra),
    ensures
        arena_values(nodes.update(j, n)) == arena_values(nodes).insert(extra),
{
    let nodes2 = nodes.update(j, n);
    assert forall|v: u64| arena_values(nodes2).contains(v) implies arena_values(
        nodes,
    ).insert(extra).contains(v) by {
        let (j2, k) = choose|j2: int, k: int|
            0 <= j2 < nodes2.len() && 0 <= k < nodes2[j2].keys_vector@.len()
                && nodes2[j2].keys_vector@[k].value == v;
        if j2 == j {
            assert(n.spec_has_key(v));
            if v != extra {
                let k2 = choose|k2: int|
                    0 <= k2 < nodes[j].keys_vector@.len() && nodes[j].keys_vector@[k2].value == v;
                assert(nodes[j].keys_vector@[k2].value == v);
            }
        } else {
            assert(nodes[j2].keys_vector@[k].value == v);
        }
    }
    assert forall|v: u64| arena_values(nodes).insert(extra).contains(v) implies arena_values(
        nodes2,
    ).contains(v) by {
        if v == extra {
            let k = choose|k: int|
                0 <= k < n.keys_vector@.len() && n.keys_vector@[k].value == extra;
            assert(nodes2[j].keys_vector@[k].value == v);
        } else {
            let (j2, k) = choose|j2: int, k: int|
                0 <= j2 < nodes.len() && 0 <= k < nodes[j2].keys_vector@.len()
                    && nodes[j2].keys_vector@[k].value == v;
            if j2 == j {
                assert(nodes[j].spec_has_key(v));
                assert(n.spec_has_key(v));
                let k2 = choose|k2: int|
                    0 <= k2 < n.keys_vector@.len() && n.keys_vector@[k2].value == v;
                assert(nodes2[j].keys_vector@[k2].value == v);
            } else {
                assert(nodes2[j2].keys_vector@[k].value == v);
            }
        }
    }
    assert(arena_values(nodes2) =~= arena_values(nodes).insert(extra));
}

/// Replacing node `j` by one holding a subset of its values leaves the stored
/// value set unchanged, provided every dropped value survives at some other
/// index.
proof fn lemma_values_update_subset(nodes: Seq<Node>, j: int, n: Node)
    requires
        0 <= j < nodes.len(),
        forall|v: u64| n.spec_has_key(v) ==> nodes[j].spec_has_key(v),
        forall|v: u64|
            nodes[j].spec_has_key(v) ==> n.spec_has_key(v) || (exists|j2: int, k: int|
                0 <= j2 < nodes.len() && j2 != j && 0 <= k < nodes[j2].keys_vector@.len()
                    && nodes[j2].keys_vector@[k].value == v),
    ensures
        arena_values(nodes.update(j, n)) == arena_values(nodes),
{
    let nodes2 = nodes.update(j, n);
    assert forall|v: u64| arena_values(nodes2).contains(v) implies arena_values(nodes).contains(
        v,
    ) by {
        let (j2, k) = choose|j2: int, k: int|
            0 <= j2 < nodes2.len() && 0 <= k < nodes2[j2].keys_vector@.len()
                && nodes2[j2].keys_vector@[k].value == v;
        if j2 == j {
            assert(n.spec_has_key(v));
            assert(nodes[j].spec_has_key(v));
            let k2 = choose|k2: int|
                0 <= k2 < nodes[j].keys_vector@.len() && nodes[j].keys_vector@[k2].value == v;
            assert(nodes[j].keys_vector@[k2].value == v);
        } else {
            assert(nodes[j2].keys_vector@[k].value == v);
        }
    }
    assert forall|v: u64| arena_values(nodes).contains(v) implies arena_values(nodes2).contains(
        v,
    ) by {
        let (j2, k) = choose|j2: int, k: int|
            0 <= j2 < nodes.len() && 0 <= k < nodes[j2].keys_vector@.len()
                && nodes[j2].keys_vector@[k].value == v;
        if j2 == j {
            assert(nodes[j].spec_has_key(v));
            if n.spec_has_key(v) {
                let k2 = choose|k2: int|
                    0 <= k2 < n.keys_vector@.len() && n.keys_vector@[k2].value == v;
                assert(nodes2[j].keys_vector@[k2].value == v);
            } else {
                let (j3, k3) = choose|j3: int, k3: int|
                    0 <= j3 < nodes.len() && j3 != j && 0 <= k3 < nodes[j3].keys_vector@.len()
                        && nodes[j3].keys_vector@[k3].value == v;
                assert(nodes2[j3].keys_vector@[k3].value == v);
            }
        } else {
            assert(nodes2[j2].keys_vector@[k].value == v);
        }
    }
    assert(arena_values(nodes2) =~= arena_values(nodes));
}

/// Appending a sound node (its children in bounds, one level below it) keeps
/// the arena sound.
proof fn lemma_arena_push(nodes: Seq<Node>, heights: Seq<nat>, n: Node, h: nat)
    requires
        arena_ok(nodes, heights),
        n.inv(),
        n.node_type == NodeType::Leaf ==> all_children_none(n.keys_vector@),
        forall|c: usize| #[trigger]
            n.spec_child_edge(c) ==> c < nodes.len() && heights[c as int] + 1 == h,
        !n.spec_has_children() ==> h == 0,
    ensures
        arena_ok(nodes.push(n), heights.push(h)),
{
    let nodes2 = nodes.push(n);
    let heights2 = heights.push(h);
    assert forall|j: int| 0 <= j < nodes2.len() implies node_ok(nodes2, heights2, j) by {
        if j < nodes.len() {
            assert(node_ok(nodes, heights, j));
            assert(nodes2[j] == nodes[j]);
            assert forall|c: usize| #[trigger]
                nodes2[j].spec_child_edge(c) implies c < nodes2.len() && heights2[c as int] + 1
                == heights2[j] by {
                assert(nodes[j].spec_child_edge(c));
            }
        } else {
            assert(nodes2[j] == n);
        }
    }
}

/// Replacing a node by a sound one (its children in bounds, one level below
/// it) keeps the arena sound.
proof fn lemma_arena_update(nodes: Seq<Node>, heights: Seq<nat>, j: int, n: Node)
    requires
        arena_ok(nodes, heights),
        0 <= j < nodes.len(),
        n.inv(),
        n.node_type == NodeType::Leaf ==> all_children_none(n.keys_vector@),
        forall|c: usize| #[trigger]
            n.spec_child_edge(c) ==> c < nodes.len() && heights[c as int] + 1 == heights[j],
        !n.spec_has_children() ==> heights[j] == 0,
    ensures
        arena_ok(nodes.update(j, n), heights),
{
    let nodes2 = nodes.update(j, n);
    assert forall|j2: int| 0 <= j2 < nodes2.len() implies node_ok(nodes2, heights, j2) by {
        if j2 == j {
            assert(nodes2[j2] == n);
        } else {
            assert(node_ok(nodes, heights, j2));
            assert(nodes2[j2] == nodes[j2]);
            assert forall|c: usize| #[trigger]
                nodes2[j2].spec_child_edge(c) implies c < nodes2.len() && heights[c as int] + 1
                == heights[j2] by {
                assert(nodes[j2].spec_child_edge(c));
            }
        }
    }
}

/// A half produced by splitting a sound node: its separators are a slice of
/// the split node's, its kind reflects whether that node had children, so it
/// is itself sound, its children sit one level below the split node, and a
/// childless half can only come from a leaf at height zero.
proof fn lemma_half_node(
    nodes: Seq<Node>,
    heights: Seq<nat>,
    curr: int,
    half: Node,
    lo: int,
    deg: int,
)
    requires
        arena_ok(nodes, heights),
        0 <= curr < nodes.len(),
        deg >= 2,
        nodes[curr].keys_vector@.len() == 2 * deg - 1,
        lo == 0 || lo == deg,
        half.keys_vector@ == nodes[curr].keys_vector@.subrange(lo, lo + (deg - 1)),
        half.node_type == (if nodes[curr].spec_has_children() {
            NodeType::Internal
        } else {
            NodeType::Leaf
        }),
    ensures
        half.inv(),
        half.node_type == NodeType::Leaf ==> all_children_none(half.keys_vector@),
        forall|c: usize| #[trigger]
            half.spec_child_edge(c) ==> c < nodes.len() && heights[c as int] + 1 == heights[curr],
        !half.spec_has_children() ==> heights[curr] == 0,
{
    let ck = nodes[curr].keys_vector@;
    let has_ch = nodes[curr].spec_has_children();
    assert(node_ok(nodes, heights, curr));
    lemma_subrange_inv(ck, half.keys_vector@, lo, lo + (deg - 1));
    if !has_ch {
        lemma_leaf_is_all_none(nodes[curr]);
        assert forall|ix: int|
            0 <= ix < half.keys_vector@.len() implies half.keys_vector@[ix].left is None
            && half.keys_vector@[ix].right is None by {
            assert(ck[lo + ix] == half.keys_vector@[ix]);
        }
        assert(heights[curr] == 0);
    } else {
        lemma_has_children_all_some(nodes[curr]);
        assert(half.keys_vector@[0] == ck[lo]);
        assert(half.keys_vector@[0].left is Some);
        assert(half.spec_has_children());
    }
    assert forall|c: usize| #[trigger]
        half.spec_child_edge(c) implies c < nodes.len() && heights[c as int] + 1
        == heights[curr] by {
        let ix = choose|ix: int|
            0 <= ix < half.keys_vector@.len() && (half.keys_vector@[ix].left == Some(c)
                || half.keys_vector@[ix].right == Some(c));
        assert(ck[lo + ix] == half.keys_vector@[ix]);
        assert(nodes[curr].spec_child_edge(c));
    }
}

/// A successful descent ends at a node that holds the target, so the target
/// is among the stored values.
proof fn lemma_search_finds_stored(nodes: Seq<Node>, heights: Seq<nat>, idx: int, target: u64)
    requires
        arena_ok(nodes, heights),
        0 <= idx < nodes.len(),
        spec_search(nodes, heights, idx, target),
    ensures
        arena_values(nodes).contains(target),
    decreases heights[idx],
{
    let n = nodes[idx];
    if n.spec_has_key(target) {
        let k = choose|k: int| 0 <= k < n.keys_vector@.len() && n.keys_vector@[k].value == target;
        assert(nodes[idx].keys_vector@[k].value == target);
    } else {
        assert(!(n.node_type == NodeType::Leaf || !n.spec_has_children()));
        lemma_next_is_child(nodes, heights, idx, target);
        lemma_search_finds_stored(nodes, heights, spec_next(n, target) as int, target);
    }
}

/// `j` is one of the recorded indices.
pub open spec fn in_path(p: Seq<usize>, j: int) -> bool {
    exists|k: int| 0 <= k < p.len() && p[k] == j
}

/// The two trees agree in every observable part: degree, root, heights, and
/// each node's kind and separator sequence.
pub open spec fn same_tree(a: BTree, b: BTree) -> bool {
    &&& a.degree == b.degree
    &&& a.root == b.root
    &&& a.heights@ == b.heights@
    &&& a.nodes@.len() == b.nodes@.len()
    &&& forall|j: int|
        0 <= j < a.nodes@.len() ==> (#[trigger] a.nodes@[j]).node_type == b.nodes@[j].node_type
    &&& forall|j: int|
        0 <= j < a.nodes@.len() ==> (#[trigger] a.nodes@[j]).keys_vector@
            == b.nodes@[j].keys_vector@
}

/// Node soundness and the search descent depend only on each node's kind and
/// separator sequence, so they transfer between arenas that agree on those.
proof fn lemma_search_congruent(
    nodes1: Seq<Node>,
    nodes2: Seq<Node>,
    heights: Seq<nat>,
    idx: int,
    target: u64,
)
    requires
        arena_ok(nodes1, heights),
        0 <= idx < nodes1.len(),
        nodes1.len() == nodes2.len(),
        forall|j: int|
            0 <= j < nodes1.len() ==> (#[trigger] nodes1[j]).node_type == nodes2[j].node_type,
        forall|j: int|
            0 <= j < nodes1.len() ==> (#[trigger] nodes1[j]).keys_vector@
                == nodes2[j].keys_vector@,
    ensures
        arena_ok(nodes2, heights),
        spec_search(nodes2, heights, idx, target) == spec_search(nodes1, heights, idx, target),
    decreases heights[idx],
{
    assert forall|j: int| 0 <= j < nodes2.len() implies node_ok(nodes2, heights, j) by {
        assert(node_ok(nodes1, heights, j));
        assert forall|c: usize| #[trigger]
            nodes2[j].spec_child_edge(c) implies c < nodes2.len() && heights[c as int] + 1
            == heights[j] by {
            assert(nodes1[j].spec_child_edge(c));
        }
    }
    let n1 = nodes1[idx];
    let n2 = nodes2[idx];
    assert(n1.spec_has_key(target) == n2.spec_has_key(target));
    assert(n1.spec_has_children() == n2.spec_has_children());
    if !n1.spec_has_key(target) && !(n1.node_type == NodeType::Leaf || !n1.spec_has_children()) {
        lemma_next_is_child(nodes1, heights, idx, target);
        assert(spec_next(n2, target) == spec_next(n1, target));
        lemma_search_congruent(nodes1, nodes2, heights, spec_next(n1, target) as int, target);
    }
}

/// The failures a tree operation can report.
#[derive(PartialEq, Eq, Structural, Clone, Copy, Debug)]
pub enum BTreeError {
    /// The requested operation is not provided by this tree.
    Unimplemented,
}

/// A B-tree of minimum branching degree `t >= 2`. Nodes live in the `nodes`
/// arena and refer to their children by index; `root` is the index of the one
/// `Root`-typed node. `heights` records each node's height (leaves at 0),
/// which pins every child exactly one level below its parent — so all leaves
/// sit at the same depth.
pub struct BTree {
    pub degree: usize,
    pub root: usize,
    pub nodes: Vec<Node>,
    pub heights: Ghost<Seq<nat>>,
}

impl BTree {
    /// A node overflows when it reaches `2t - 1` separators.
    pub open spec fn spec_max_keys(self) -> int {
        2 * self.degree - 1
    }

    /// Well-formedness: a sound arena whose nodes all hold fewer than
    /// `2t - 1` separators after a completed operation, with exactly one
    /// `Root`-typed node, at the root index.
    pub open spec fn wf(self) -> bool {
        &&& self.degree >= 2
        &&& 2 * self.degree - 1 <= usize::MAX
        &&& self.root < self.nodes@.len()
        &&& self.heights@.len() == self.nodes@.len()
        &&& arena_ok(self.nodes@, self.heights@)
        &&& forall|j: int|
            0 <= j < self.nodes@.len() ==> #[trigger] self.nodes@[j].keys_vector@.len()
                < self.spec_max_keys()
        &&& forall|j: int|
            0 <= j < self.nodes@.len() ==> ((#[trigger] self.nodes@[j].node_type)
                == NodeType::Root <==> j == self.root)
    }

    /// Height of the tree: the root's height, with leaves at height 0.
    pub open spec fn spec_height(self) -> nat {
        self.heights@[self.root as int]
    }

    /// Every separator value stored in the tree's arena.
    pub open spec fn all_values(self) -> Set<u64> {
        arena_values(self.nodes@)
    }

    /// Membership of `target` in the tree, as decided by descent from the
    /// root.
    pub open spec fn spec_contains(self, target: u64) -> bool {
        spec_search(self.nodes@, self.heights@, self.root as int, target)
    }

    fn max_keys(&self) -> (r: usize)
        requires
            self.degree >= 2,
            2 * self.degree - 1 <= usize::MAX,
        ensures
            r == self.spec_max_keys(),
    {
        2 * (self.degree - 1) + 1
    }

    /// An empty tree: a single `Root`-typed node with no separators.
    pub fn new(degree: usize) -> (t: BTree)
        requires
            degree >= 2,
            2 * degree - 1 <= usize::MAX,
        ensures
            t.wf(),
            t.degree == degree,
            t.nodes@.len() == 1,
            t.nodes@[t.root as int].keys_vector@.len() == 0,
            t.spec_height() == 0,
            t.all_values() == Set::<u64>::empty(),
            forall|v: u64| !t.spec_contains(v),
    {
        let ghost h0: Seq<nat> = seq![0nat];
        let t = BTree {
            degree,
            root: 0,
            nodes: vec![Node::new(NodeType::Root, Vec::new())],
            heights: Ghost(h0),
        };
        proof {
            assert(!t.nodes@[0].spec_has_children());
            assert(node_ok(t.nodes@, t.heights@, 0));
            assert(t.all_values() =~= Set::<u64>::empty());
            assert forall|v: u64| !t.spec_contains(v) by {
                assert(!t.nodes@[0].spec_has_key(v));
            }
        }
        t
    }

    /// Insert `value`: descend from the root to a leaf recording the visited
    /// nodes, insert the value there at its sorted position (a duplicate is
    /// silently ignored), then walk the path backward splitting every node
    /// that has reached `2t - 1` separators. The stored values grow by
    /// exactly `value`; the height grows by at most one, exactly when the
    /// root itself splits, and then the new root holds a single separator.
    #[verifier::loop_isolation(false)]
    pub fn insert(&mut self, value: u64)
        requires
            old(self).wf(),
        ensures
            final(self).wf(),
            final(self).degree == old(self).degree,
            final(self).all_values() == old(self).all_values().insert(value),
            old(self).spec_height() <= final(self).spec_height() <= old(self).spec_height() + 1,
            final(self).spec_height() == old(self).spec_height() + 1 ==> final(self).nodes@[final(self).root as int].keys_vector@.len() == 1,
            old(self).nodes@[spec_descend(
                old(self).nodes@,
                old(self).heights@,
                old(self).root as int,
                value,
            )].spec_has_key(value) ==> same_tree(*final(self), *old(self)),
    {
        let mut target: usize = self.root;
        let mut path: Vec<usize> = Vec::new();
        path.push(target);
        while self.nodes[target].has_children()
            invariant
                target < self.nodes@.len(),
                path@.len() >= 1,
                path@[0] == self.root,
                path@.last() == target,
                forall|k: int| 0 <= k < path@.len() ==> #[trigger] path@[k] < self.nodes@.len(),
                forall|k: int|
                    0 <= k < path@.len() ==> self.heights@[#[trigger] path@[k] as int] + k
                        == self.spec_height(),
                spec_descend(self.nodes@, self.heights@, self.root as int, value) == spec_descend(
                    self.nodes@,
                    self.heights@,
                    target as int,
                    value,
                ),
            decreases self.heights@[target as int],
        {
            proof {
                assert(node_ok(self.nodes@, self.heights@, target as int));
            }
            let next = self.nodes[target].get_next(value);
            proof {
                lemma_next_is_child(self.nodes@, self.heights@, target as int, value);
            }
            target = next;
            path.push(target);
        }
        proof {
            assert(node_ok(self.nodes@, self.heights@, target as int));
        }
        let mut leaf_node = Node::new(NodeType::Leaf, Vec::new());
        self.nodes.set_and_swap(target, &mut leaf_node);
        leaf_node.leaf_insert_sorted(value);
        self.nodes.set_and_swap(target, &mut leaf_node);
        proof {
            // the descent ended at the leaf that `spec_descend` names
            assert(spec_descend(old(self).nodes@, old(self).heights@, old(self).root as int, value)
                == target);
            // only the leaf changed, and only by gaining `value`
            let pre = old(self).nodes@;
            let mid = self.nodes@;
            let leaf1 = mid[target as int];
            assert(mid =~= pre.update(target as int, leaf1));
            if old(self).nodes@[target as int].spec_has_key(value) {
                // the value already sat in the descent leaf: nothing changed
                assert(same_tree(*self, *old(self)));
            }
            lemma_values_update(pre, target as int, leaf1, value);
            assert forall|j: int| 0 <= j < mid.len() implies node_ok(mid, self.heights@, j) by {
                assert(node_ok(pre, self.heights@, j));
                if j == target {
                    assert forall|c: usize| #[trigger]
                        leaf1.spec_child_edge(c) implies c < mid.len() && self.heights@[c as int]
                        + 1 == self.heights@[j] by {
                        assert(all_children_none(leaf1.keys_vector@));
                        let i = choose|i: int|
                            0 <= i < leaf1.keys_vector@.len() && (leaf1.keys_vector@[i].left
                                == Some(c) || leaf1.keys_vector@[i].right == Some(c));
                        assert(false);
                    }
                } else {
                    assert(mid[j] == pre[j]);
                    assert forall|c: usize| #[trigger]
                        mid[j].spec_child_edge(c) implies c < mid.len() && self.heights@[c as int]
                        + 1 == self.heights@[j] by {
                        assert(pre[j].spec_child_edge(c));
                    }
                }
            }
        }
        let ghost mid_state = *self;
        self.handle_overflow(path);
        proof {
            if old(self).nodes@[target as int].spec_has_key(value) {
                assert(mid_state.nodes@[path@.last() as int].keys_vector@.len()
                    < mid_state.spec_max_keys());
                assert(same_tree(*self, mid_state));
                assert(same_tree(*self, *old(self)));
            }
        }
    }

    /// Walk the recorded path from the leaf back toward the root. A visited
    /// node below `2t - 1` separators ends the walk; an overflowing one is
    /// split around its median into two fresh half nodes, and the median is
    /// promoted into the parent — or into a brand-new root when the split
    /// node is the root itself, growing the tree by one level. The split
    /// node itself is discarded in favour of the halves: it keeps only its
    /// left half, and a former root is retyped `Internal`.
    #[verifier::loop_isolation(false)]
    #[verifier::rlimit(100)]
    #[verifier::spinoff_prover]
    fn handle_overflow(&mut self, path: Vec<usize>)
        requires
            old(self).degree >= 2,
            2 * old(self).degree - 1 <= usize::MAX,
            old(self).root < old(self).nodes@.len(),
            arena_ok(old(self).nodes@, old(self).heights@),
            forall|j: int|
                0 <= j < old(self).nodes@.len() ==> ((#[trigger] old(self).nodes@[j].node_type)
                    == NodeType::Root <==> j == old(self).root),
            path@.len() >= 1,
            path@[0] == old(self).root,
            forall|k: int| 0 <= k < path@.len() ==> #[trigger] path@[k] < old(self).nodes@.len(),
            forall|k: int|
                0 <= k < path@.len() ==> old(self).heights@[#[trigger] path@[k] as int] + k
                    == old(self).spec_height(),
            forall|j: int|
                0 <= j < old(self).nodes@.len() && j != path@.last() ==> (#[trigger] old(self).nodes@[j].keys_vector@.len()) < old(self).spec_max_keys(),
            old(self).nodes@[path@.last() as int].keys_vector@.len() <= old(self).spec_max_keys(),
        ensures
            final(self).wf(),
            final(self).degree == old(self).degree,
            final(self).all_values() == old(self).all_values(),
            old(self).spec_height() <= final(self).spec_height() <= old(self).spec_height() + 1,
            final(self).spec_height() == old(self).spec_height() + 1 ==> final(self).nodes@[final(self).root as int].keys_vector@.len() == 1,
            forall|j: int|
                0 <= j < old(self).nodes@.len() && !in_path(path@, j) ==> final(self).nodes@[j]
                    == old(self).nodes@[j],
            old(self).nodes@[path@.last() as int].keys_vector@.len() < old(self).spec_max_keys()
                ==> same_tree(*final(self), *old(self)),
    {
        let ghost hroot = old(self).spec_height();
        let mut i: usize = path.len();
        while i > 0
            invariant
                1 <= i <= path@.len(),
                self.degree == old(self).degree,
                self.root == old(self).root,
                self.root < self.nodes@.len(),
                arena_ok(self.nodes@, self.heights@),
                forall|j: int|
                    0 <= j < self.nodes@.len() ==> ((#[trigger] self.nodes@[j].node_type)
                        == NodeType::Root <==> j == self.root),
                forall|k: int| 0 <= k < path@.len() ==> #[trigger] path@[k] < self.nodes@.len(),
                forall|k: int|
                    0 <= k < path@.len() ==> self.heights@[#[trigger] path@[k] as int] + k
                        == hroot,
                self.spec_height() == hroot,
                forall|j: int|
                    0 <= j < self.nodes@.len() && j != path@[i - 1] ==> (#[trigger] self.nodes@[j].keys_vector@.len()) < self.spec_max_keys(),
                self.nodes@[path@[i - 1] as int].keys_vector@.len() <= self.spec_max_keys(),
                arena_values(self.nodes@) == arena_values(old(self).nodes@),
                old(self).nodes@.len() <= self.nodes@.len(),
                forall|j: int|
                    0 <= j < old(self).nodes@.len() && !in_path(path@, j) ==> self.nodes@[j]
                        == old(self).nodes@[j],
                i < path@.len() ==> old(self).nodes@[path@.last() as int].keys_vector@.len()
                    >= old(self).spec_max_keys(),
                i == path@.len() ==> same_tree(*self, *old(self)),
            decreases i,
        {
            i = i - 1;
            let curr = path[i];
            proof {
                assert(node_ok(self.nodes@, self.heights@, curr as int));
            }
            if self.nodes[curr].keys_vector.len() < self.max_keys() {
                return;
            }
            proof {
                if i as int + 1 == path@.len() {
                    assert(old(self).nodes@[path@.last() as int].keys_vector@.len()
                        == self.nodes@[path@.last() as int].keys_vector@.len());
                }
                assert(old(self).nodes@[path@.last() as int].keys_vector@.len() >= old(
                    self,
                ).spec_max_keys());
            }
            if i != 0 {
                let parent = path[i - 1];
                proof {
                    assert(self.heights@[parent as int] + (i - 1) == hroot);
                    assert(self.heights@[parent as int] == self.heights@[curr as int] + 1);
                    assert(parent != curr);
                    assert(curr != self.root) by {
                        assert(self.heights@[curr as int] + i == hroot);
                    }
                }
                let ghost before = *self;
                self.split_step(curr, Some(parent));
                proof {
                    assert forall|j: int|
                        0 <= j < old(self).nodes@.len() && !in_path(path@, j) implies self.nodes@[j]
                        == old(self).nodes@[j] by {
                        assert(path@[i as int] == curr);
                        assert(path@[i as int - 1] == parent);
                        assert(j != curr && j != parent);
                        assert(self.nodes@[j] == before.nodes@[j]);
                    }
                }
            } else {
                proof {
                    assert(self.heights@[curr as int] == hroot);
                }
                let ghost before = *self;
                self.split_step(curr, None);
                proof {
                    assert forall|j: int|
                        0 <= j < old(self).nodes@.len() && !in_path(path@, j) implies self.nodes@[j]
                        == old(self).nodes@[j] by {
                        assert(path@[i as int] == curr);
                        assert(j != curr);
                        assert(self.nodes@[j] == before.nodes@[j]);
                    }
                    assert(self.wf());
                }
                return;
            }
        }
    }

    /// Split the node at `curr`, which holds exactly `2t - 1` separators:
    /// build its two halves as fresh nodes, promote the median separator into
    /// `parent` — or into a brand-new root when `curr` is the root itself —
    /// and discard the split node in favour of the halves: it keeps only its
    /// left half, and a former root is retyped `Internal`.
    #[verifier::loop_isolation(false)]
    #[verifier::rlimit(100)]
    #[verifier::spinoff_prover]
    fn split_step(&mut self, curr: usize, parent: Option<usize>)
        requires
            old(self).degree >= 2,
            2 * old(self).degree - 1 <= usize::MAX,
            old(self).root < old(self).nodes@.len(),
            arena_ok(old(self).nodes@, old(self).heights@),
            forall|j: int|
                0 <= j < old(self).nodes@.len() ==> ((#[trigger] old(self).nodes@[j].node_type)
                    == NodeType::Root <==> j == old(self).root),
            curr < old(self).nodes@.len(),
            old(self).nodes@[curr as int].keys_vector@.len() == old(self).spec_max_keys(),
            forall|j: int|
                0 <= j < old(self).nodes@.len() && j != curr ==> (#[trigger] old(self).nodes@[j].keys_vector@.len()) < old(self).spec_max_keys(),
            parent matches Some(p) ==> p < old(self).nodes@.len() && old(self).heights@[p as int]
                == old(self).heights@[curr as int] + 1 && curr != old(self).root,
            parent is None ==> curr == old(self).root,
        ensures
            final(self).degree == old(self).degree,
            final(self).root < final(self).nodes@.len(),
            arena_ok(final(self).nodes@, final(self).heights@),
            forall|j: int|
                0 <= j < final(self).nodes@.len() ==> ((#[trigger] final(self).nodes@[j].node_type)
                    == NodeType::Root <==> j == final(self).root),
            final(self).nodes@.len() >= old(self).nodes@.len(),
            forall|j: int|
                0 <= j < old(self).nodes@.len() ==> final(self).heights@[j] == old(self).heights@[j],
            arena_values(final(self).nodes@) == arena_values(old(self).nodes@),
            parent matches Some(p) ==> {
                &&& final(self).root == old(self).root
                &&& final(self).spec_height() == old(self).spec_height()
                &&& (forall|j: int|
                    0 <= j < final(self).nodes@.len() && j != p ==> (#[trigger] final(self).nodes@[j].keys_vector@.len()) < final(self).spec_max_keys())
                &&& final(self).nodes@[p as int].keys_vector@.len() <= old(self).nodes@[p
                    as int].keys_vector@.len() + 1
            },
            parent is None ==> {
                &&& final(self).spec_height() == old(self).spec_height() + 1
                &&& final(self).nodes@[final(self).root as int].keys_vector@.len() == 1
                &&& (forall|j: int|
                    0 <= j < final(self).nodes@.len() ==> (#[trigger] final(self).nodes@[j].keys_vector@.len()) < final(self).spec_max_keys())
            },
            ({
                // the split contents: the two fresh halves carry the key
                // ranges either side of the median and the split node's kind,
                // the promoted separator carries the median with the halves
                // as its children, and no other pre-existing node changes
                let ck = old(self).nodes@[curr as int].keys_vector@;
                let t = old(self).degree as int;
                let li = old(self).nodes@.len() as int;
                let ri = li + 1;
                let sep = (Key {
                    value: ck[t - 1].value,
                    left: Some(li as usize),
                    right: Some(ri as usize),
                });
                let half_kind = if old(self).nodes@[curr as int].spec_has_children() {
                    NodeType::Internal
                } else {
                    NodeType::Leaf
                };
                &&& final(self).nodes@[li].keys_vector@ == ck.subrange(0, t - 1)
                &&& final(self).nodes@[ri].keys_vector@ == ck.subrange(t, 2 * t - 1)
                &&& final(self).nodes@[li].node_type == half_kind
                &&& final(self).nodes@[ri].node_type == half_kind
                &&& final(self).nodes@[curr as int].keys_vector@ == ck.subrange(0, t - 1)
                &&& (forall|j: int|
                    0 <= j < old(self).nodes@.len() && j != curr && (parent matches Some(p)
                        ==> j != p) ==> final(self).nodes@[j] == old(self).nodes@[j])
                &&& (parent matches Some(p) ==> {
                    &&& final(self).nodes@.len() == old(self).nodes@.len() + 2
                    &&& final(self).nodes@[curr as int].node_type == old(self).nodes@[curr
                        as int].node_type
                    &&& (old(self).nodes@[p as int].spec_has_key(sep.value) ==> final(self).nodes@[p as int].keys_vector@ == old(self).nodes@[p as int].keys_vector@)
                    &&& (!old(self).nodes@[p as int].spec_has_key(sep.value) ==> exists|q: int|
                        #[trigger] sorted_insert_pos(
                            old(self).nodes@[p as int].keys_vector@,
                            q,
                            sep.value,
                        ) && final(self).nodes@[p as int].keys_vector@ == insert_repaired(
                            old(self).nodes@[p as int].keys_vector@,
                            q,
                            sep,
                        ))
                })
                &&& (parent is None ==> {
                    &&& final(self).nodes@.len() == old(self).nodes@.len() + 3
                    &&& final(self).root == old(self).nodes@.len() + 2
                    &&& final(self).nodes@[final(self).root as int].keys_vector@ == seq![sep]
                    &&& final(self).nodes@[curr as int].node_type == NodeType::Internal
                })
            }),
    {
        let deg = self.degree;
        let maxk = self.max_keys();
        let ghost hcurr: nat = self.heights@[curr as int];
        let ghost pre_nodes = self.nodes@;
        let ghost pre_heights = self.heights@;
        let ghost ck = pre_nodes[curr as int].keys_vector@;

        let median_key_value = self.nodes[curr].keys_vector[deg - 1].value;

        let mut new_left_keys: Vec<Key> = Vec::new();
        let mut j: usize = 0;
        while j < deg - 1
            invariant
                j <= deg - 1,
                new_left_keys@ == ck.subrange(0, j as int),
            decreases deg - 1 - j,
        {
            let k = self.nodes[curr].keys_vector[j];
            new_left_keys.push(k);
            proof {
                assert(ck.subrange(0, j + 1) =~= ck.subrange(0, j as int).push(k));
            }
            j += 1;
        }

        let mut new_right_keys: Vec<Key> = Vec::new();
        let mut j2: usize = deg;
        while j2 < maxk
            invariant
                deg <= j2 <= maxk,
                new_right_keys@ == ck.subrange(deg as int, j2 as int),
            decreases maxk - j2,
        {
            let k = self.nodes[curr].keys_vector[j2];
            new_right_keys.push(k);
            proof {
                assert(ck.subrange(deg as int, j2 + 1) =~= ck.subrange(
                    deg as int,
                    j2 as int,
                ).push(k));
            }
            j2 += 1;
        }

        // the halves take the split node's kind: internal halves of an
        // internal node, leaves of a leaf-like one
        let has_ch = self.nodes[curr].has_children();
        let half_type = if has_ch {
            NodeType::Internal
        } else {
            NodeType::Leaf
        };
        let li = self.nodes.len();
        self.nodes.push(Node::new(half_type, new_left_keys));
        let ri = self.nodes.len();
        self.nodes.push(Node::new(half_type, new_right_keys));
        let ghost h2 = pre_heights.push(hcurr).push(hcurr);
        self.heights = Ghost(h2);

        proof {
            let nodes1 = self.nodes@;
            let left = nodes1[li as int];
            let right = nodes1[ri as int];
            assert(left.keys_vector@ == ck.subrange(0, deg - 1));
            assert(right.keys_vector@ == ck.subrange(deg as int, 2 * deg - 1));
            assert(node_ok(pre_nodes, pre_heights, curr as int));
            lemma_half_node(pre_nodes, pre_heights, curr as int, left, 0, deg as int);
            lemma_half_node(pre_nodes, pre_heights, curr as int, right, deg as int, deg as int);
            lemma_arena_push(pre_nodes, pre_heights, left, hcurr);
            assert forall|c: usize| #[trigger]
                right.spec_child_edge(c) implies c < pre_nodes.push(left).len()
                && pre_heights.push(hcurr)[c as int] + 1 == hcurr by {
                assert(c < pre_nodes.len() && pre_heights[c as int] + 1 == hcurr);
            }
            lemma_arena_push(pre_nodes.push(left), pre_heights.push(hcurr), right, hcurr);
            assert(nodes1 =~= pre_nodes.push(left).push(right));
            assert(h2 =~= pre_heights.push(hcurr).push(hcurr));
            // the halves' values are drawn from the split node
            assert forall|v: u64| left.spec_has_key(v) implies arena_values(pre_nodes).contains(
                v,
            ) by {
                let kx = choose|kx: int|
                    0 <= kx < left.keys_vector@.len() && left.keys_vector@[kx].value == v;
                assert(ck[kx].value == v);
            }
            lemma_values_push(pre_nodes, left);
            assert forall|v: u64| right.spec_has_key(v) implies arena_values(
                pre_nodes.push(left),
            ).contains(v) by {
                let kx = choose|kx: int|
                    0 <= kx < right.keys_vector@.len() && right.keys_vector@[kx].value == v;
                assert(ck[kx + deg].value == v);
                assert(pre_nodes.push(left)[curr as int].keys_vector@[kx + deg].value == v);
            }
            lemma_values_push(pre_nodes.push(left), right);
            assert(arena_values(nodes1) == arena_values(pre_nodes));
            assert(arena_ok(nodes1, h2));
        }

        let new_separator_key = Key::new(median_key_value, Some(li), Some(ri));

        match parent {
            Some(parent_idx) => {
                let ghost nodes1 = self.nodes@;
                proof {
                    assert(node_ok(nodes1, h2, parent_idx as int));
                    assert(nodes1[parent_idx as int].spec_has_children());
                    lemma_has_children_all_some(nodes1[parent_idx as int]);
                }
                let mut pnode = Node::new(NodeType::Leaf, Vec::new());
                self.nodes.set_and_swap(parent_idx, &mut pnode);
                pnode.insert_key_sorted(new_separator_key);
                self.nodes.set_and_swap(parent_idx, &mut pnode);
                proof {
                    let nodes2 = self.nodes@;
                    let p1 = nodes1[parent_idx as int];
                    let p2 = nodes2[parent_idx as int];
                    assert(nodes2 =~= nodes1.update(parent_idx as int, p2));
                    assert(p1.node_type != NodeType::Leaf) by {
                        if p1.node_type == NodeType::Leaf {
                            assert(all_children_none(p1.keys_vector@));
                            assert(p1.keys_vector@[0].left is Some);
                        }
                    }
                    assert(node_ok(nodes1, h2, parent_idx as int));
                    assert forall|c: usize| #[trigger]
                        p2.spec_child_edge(c) implies c < nodes1.len() && h2[c as int] + 1 == h2[
                    parent_idx as int] by {
                        if p1.spec_child_edge(c) {
                        } else {
                            assert(c == li || c == ri);
                        }
                    }
                    assert(p2.spec_has_children()) by {
                        assert(p1.spec_has_key(p1.keys_vector@[0].value));
                        assert(p2.spec_has_key(p1.keys_vector@[0].value));
                        let kx = choose|kx: int|
                            0 <= kx < p2.keys_vector@.len() && p2.keys_vector@[kx].value
                                == p1.keys_vector@[0].value;
                        assert(p2.keys_vector@[kx].left is Some);
                    }
                    lemma_arena_update(nodes1, h2, parent_idx as int, p2);
                    // the promoted median was already stored in the split node
                    assert(arena_values(nodes1).contains(median_key_value)) by {
                        assert(nodes1[curr as int].keys_vector@[deg - 1].value
                            == median_key_value);
                    }
                    lemma_values_update(nodes1, parent_idx as int, p2, median_key_value);
                    assert(arena_values(nodes2) =~= arena_values(nodes1));
                }
            },
            None => {
                // the root itself split: a brand-new root holds the median
                let mut root_keys: Vec<Key> = Vec::new();
                root_keys.push(new_separator_key);
                let nri = self.nodes.len();
                let ghost nodes1 = self.nodes@;
                self.nodes.push(Node::new(NodeType::Root, root_keys));
                let ghost h3 = h2.push((hcurr + 1) as nat);
                self.heights = Ghost(h3);
                self.root = nri;
                proof {
                    let nodes2 = self.nodes@;
                    let rnode = nodes2[nri as int];
                    assert(rnode.keys_vector@ =~= seq![new_separator_key]);
                    assert(rnode.spec_has_children());
                    assert forall|c: usize| #[trigger]
                        rnode.spec_child_edge(c) implies c < nodes1.len() && h2[c as int] + 1
                        == hcurr + 1 by {
                        let ix = choose|ix: int|
                            0 <= ix < rnode.keys_vector@.len() && (rnode.keys_vector@[ix].left
                                == Some(c) || rnode.keys_vector@[ix].right == Some(c));
                        assert(c == li || c == ri);
                    }
                    lemma_arena_push(nodes1, h2, rnode, (hcurr + 1) as nat);
                    assert(nodes2 =~= nodes1.push(rnode));
                    assert(h3 =~= h2.push((hcurr + 1) as nat));
                    assert forall|v: u64| rnode.spec_has_key(v) implies arena_values(
                        nodes1,
                    ).contains(v) by {
                        assert(v == median_key_value);
                        assert(nodes1[curr as int].keys_vector@[deg - 1].value == v);
                    }
                    lemma_values_push(nodes1, rnode);
                    assert(arena_ok(nodes2, h3));
                }
            },
        }

        // the split node is discarded in favour of its halves: it keeps only
        // its left half, and a former root becomes internal
        let ghost nodes3 = self.nodes@;
        let ghost hs3 = self.heights@;
        let mut cnode = Node::new(NodeType::Leaf, Vec::new());
        self.nodes.set_and_swap(curr, &mut cnode);
        cnode.keys_vector.truncate(deg - 1);
        if parent.is_none() {
            cnode.node_type = NodeType::Internal;
        }
        self.nodes.set_and_swap(curr, &mut cnode);
        proof {
            let nodes4 = self.nodes@;
            let c4 = nodes4[curr as int];
            assert(nodes4 =~= nodes3.update(curr as int, c4));
            assert(nodes3[curr as int].keys_vector@ == ck);
            assert(c4.keys_vector@ == ck.subrange(0, deg - 1));
            lemma_subrange_inv(ck, c4.keys_vector@, 0, deg - 1);
            assert(node_ok(nodes3, hs3, curr as int));
            assert(hs3[curr as int] == hcurr);
            assert forall|c: usize| #[trigger]
                c4.spec_child_edge(c) implies c < nodes3.len() && hs3[c as int] + 1 == hs3[curr
            as int] by {
                let ix = choose|ix: int|
                    0 <= ix < c4.keys_vector@.len() && (c4.keys_vector@[ix].left == Some(c)
                        || c4.keys_vector@[ix].right == Some(c));
                assert(ck[ix] == c4.keys_vector@[ix]);
                assert(nodes3[curr as int].spec_child_edge(c));
            }
            if !c4.spec_has_children() {
                if has_ch {
                    lemma_has_children_all_some(pre_nodes[curr as int]);
                    assert(c4.keys_vector@[0] == ck[0]);
                    assert(c4.spec_has_children());
                }
                assert(hcurr == 0);
            }
            if c4.node_type == NodeType::Leaf {
                assert(pre_nodes[curr as int].node_type == NodeType::Leaf);
                assert(all_children_none(ck));
                assert forall|ix: int|
                    0 <= ix < c4.keys_vector@.len() implies c4.keys_vector@[ix].left is None
                    && c4.keys_vector@[ix].right is None by {
                    assert(ck[ix] == c4.keys_vector@[ix]);
                }
            }
            lemma_arena_update(nodes3, hs3, curr as int, c4);
            // every discarded value survives: the median in the node it was
            // promoted into, the right half in the fresh right node
            assert forall|v: u64|
                nodes3[curr as int].spec_has_key(v) implies c4.spec_has_key(v) || (exists|
                j2x: int,
                kx: int,
            |
                0 <= j2x < nodes3.len() && j2x != curr && 0 <= kx
                    < nodes3[j2x].keys_vector@.len() && nodes3[j2x].keys_vector@[kx].value
                    == v) by {
                let kx = choose|kx: int|
                    0 <= kx < nodes3[curr as int].keys_vector@.len() && nodes3[curr
                    as int].keys_vector@[kx].value == v;
                if kx < deg - 1 {
                    assert(c4.keys_vector@[kx].value == v);
                } else if kx == deg - 1 {
                    // the median: it was promoted
                    match parent {
                        Some(parent_idx) => {
                            assert(nodes3[parent_idx as int].spec_has_key(median_key_value));
                            let k2 = choose|k2: int|
                                0 <= k2 < nodes3[parent_idx as int].keys_vector@.len()
                                    && nodes3[parent_idx as int].keys_vector@[k2].value
                                    == median_key_value;
                            assert(hs3[parent_idx as int] == hcurr + 1);
                            assert(parent_idx != curr);
                            assert(nodes3[parent_idx as int].keys_vector@[k2].value == v);
                        },
                        None => {
                            assert(nodes3[self.root as int].keys_vector@[0].value == v);
                            assert(self.root != curr);
                        },
                    }
                } else {
                    assert(nodes3[ri as int].keys_vector@[kx - deg].value == v);
                    assert(ri != curr);
                }
            }
            assert forall|v: u64| c4.spec_has_key(v) implies nodes3[curr
            as int].spec_has_key(v) by {
                let kx = choose|kx: int|
                    0 <= kx < c4.keys_vector@.len() && c4.keys_vector@[kx].value == v;
                assert(nodes3[curr as int].keys_vector@[kx].value == v);
            }
            lemma_values_update_subset(nodes3, curr as int, c4);
        }
    }

    /// Membership search, delegated to the root node.
    pub fn search(&self, target: u64) -> (r: bool)
        requires
            self.wf(),
        ensures
            r == self.spec_contains(target),
    {
        Node::search(&self.nodes, self.root, target, Ghost(self.heights@))
    }

    /// Inserting an already-stored value does not change the set of stored
    /// values: the two states of `insert`'s contract coincide on it. (The
    /// tree may still be restructured by splits, and a value that sits in an
    /// internal separator is stored again at a leaf, but the value set is
    /// idempotent under insertion.)
    pub proof fn lemma_insert_idempotent_on_values(pre: BTree, post: BTree, value: u64)
        requires
            pre.all_values().contains(value),
            post.all_values() == pre.all_values().insert(value),
        ensures
            post.all_values() == pre.all_values(),
    {
        assert(pre.all_values().insert(value) =~= pre.all_values());
    }

    /// Two observably equal trees answer every search alike. Together with
    /// `insert`'s guarantee that re-inserting a value already at its descent
    /// leaf leaves the tree unchanged, a repeated insertion changes no search
    /// answer.
    pub proof fn lemma_same_tree_same_search(a: BTree, b: BTree, target: u64)
        requires
            a.wf(),
            same_tree(a, b),
        ensures
            b.spec_contains(target) == a.spec_contains(target),
    {
        lemma_search_congruent(a.nodes@, b.nodes@, a.heights@, a.root as int, target);
    }

    /// Search never invents a value: whenever the descent reports `target`
    /// present, `target` is stored in the tree.
    pub proof fn lemma_search_sound(self, target: u64)
        requires
            self.wf(),
            self.spec_contains(target),
        ensures
            self.all_values().contains(target),
    {
        lemma_search_finds_stored(self.nodes@, self.heights@, self.root as int, target);
    }

    /// A chain of nodes starting at the root in which each entry is a child
    /// of the one before it.
    pub open spec fn is_descent_path(self, p: Seq<usize>) -> bool {
        &&& p.len() >= 1
        &&& p[0] == self.root
        &&& forall|k: int|
            0 <= k < p.len() - 1 ==> p[k] < self.nodes@.len() && (#[trigger] self.nodes@[p[k]
                as int]).spec_child_edge(p[k + 1])
    }

    /// In a well-formed tree, every separator sequence is strictly ascending,
    /// adjacent separators share the child between them, and no node holds
    /// more than `2t - 1` separators.
    pub proof fn lemma_node_invariants(self)
        requires
            self.wf(),
        ensures
            forall|j: int|
                0 <= j < self.nodes@.len() ==> keys_sorted(
                    (#[trigger] self.nodes@[j]).keys_vector@,
                ),
            forall|j: int|
                0 <= j < self.nodes@.len() ==> shared_children(
                    (#[trigger] self.nodes@[j]).keys_vector@,
                ),
            forall|j: int|
                0 <= j < self.nodes@.len() ==> (#[trigger] self.nodes@[j]).keys_vector@.len() <= 2
                    * self.degree - 1,
    {
        assert forall|j: int|
            0 <= j < self.nodes@.len() implies keys_sorted((#[trigger] self.nodes@[j]).keys_vector@)
            && shared_children(self.nodes@[j].keys_vector@) && self.nodes@[j].keys_vector@.len()
            <= 2 * self.degree - 1 by {
            assert(node_ok(self.nodes@, self.heights@, j));
        }
    }

    /// Along a descent path of a well-formed tree, the node `k` steps from
    /// the root sits exactly `k` levels below it.
    pub proof fn lemma_path_heights(self, p: Seq<usize>, k: int)
        requires
            self.wf(),
            self.is_descent_path(p),
            0 <= k < p.len(),
        ensures
            p[k] < self.nodes@.len(),
            self.heights@[p[k] as int] + k == self.spec_height(),
        decreases k,
    {
        if k > 0 {
            self.lemma_path_heights(p, k - 1);
            assert(node_ok(self.nodes@, self.heights@, p[k - 1] as int));
            assert(self.nodes@[p[k - 1] as int].spec_child_edge(p[k]));
        }
    }

    /// Balance: every descent path from the root of a well-formed tree to a
    /// childless (leaf) node has the same length — the tree's height plus
    /// one. So all leaves sit at equal depth.
    pub proof fn lemma_balance(self, p: Seq<usize>)
        requires
            self.wf(),
            self.is_descent_path(p),
            !self.nodes@[p.last() as int].spec_has_children(),
        ensures
            p.len() == self.spec_height() + 1,
    {
        self.lemma_path_heights(p, p.len() - 1);
        assert(node_ok(self.nodes@, self.heights@, p.last() as int));
        assert(self.heights@[p.last() as int] == 0);
    }

    /// Deletion is not provided: it reports `Unimplemented` unconditionally.
    pub fn delete(&self, _value: u64) -> (r: Result<(), BTreeError>)
        ensures
            r == Result::<(), BTreeError>::Err(BTreeError::Unimplemented),
    {
        Err(BTreeError::Unimplemented)
    }
}

} // verus!
