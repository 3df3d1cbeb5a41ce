use vstd::prelude::*;

use crate::key::Key;
use vstd::pervasive::VecAdditionalExecFns;

verus! {

/// Classification of a node. Exactly one node of a tree — the current root —
/// carries `Root`; a `Leaf` holds only childless separators.
#[derive(PartialEq, Eq, Structural, Clone, Copy, Debug)]
pub enum NodeType {
    Root,
    Internal,
    Leaf,
}

/// A node: an ascending sequence of separators. A node with `k` separators
/// has `k + 1` conceptual child slots, held implicitly in the separators'
/// `left`/`right` fields; adjacent separators share the child between them.
#[derive(Clone, Debug)]
pub struct Node {
    pub node_type: NodeType,
    pub keys_vector: Vec<Key>,
}

/// Separator values are strictly ascending.
pub open spec fn keys_sorted(keys: Seq<Key>) -> bool {
    forall|i: int, j: int| 0 <= i < j < keys.len() ==> keys[i].value < keys[j].value
}

/// Adjacent separators reference the same child between them.
pub open spec fn shared_children(keys: Seq<Key>) -> bool {
    forall|i: int| 0 <= i < keys.len() - 1 ==> keys[i].right == keys[i + 1].left
}

/// No separator carries a child (the node is leaf-like).
pub open spec fn all_children_none(keys: Seq<Key>) -> bool {
    forall|i: int| 0 <= i < keys.len() ==> keys[i].left is None && keys[i].right is None
}

/// Every separator carries both children (the node is internal-like).
pub open spec fn all_children_some(keys: Seq<Key>) -> bool {
    forall|i: int| 0 <= i < keys.len() ==> keys[i].left is Some && keys[i].right is Some
}

/// Some separator in the sequence carries the value `v`.
pub open spec fn seq_has_value(keys: Seq<Key>, v: u64) -> bool {
    exists|i: int| 0 <= i < keys.len() && keys[i].value == v
}

/// Some separator in the sequence references child index `c`.
pub open spec fn seq_has_edge(keys: Seq<Key>, c: usize) -> bool {
    exists|i: int| 0 <= i < keys.len() && (keys[i].left == Some(c) || keys[i].right == Some(c))
}

/// `p` is the unique position where a separator valued `v` belongs in the
/// ascending sequence `keys`, with `v` itself absent.
pub open spec fn sorted_insert_pos(keys: Seq<Key>, p: int, v: u64) -> bool {
    &&& 0 <= p <= keys.len()
    &&& forall|j: int| 0 <= j < p ==> keys[j].value < v
    &&& forall|j: int| p <= j < keys.len() ==> keys[j].value > v
}

/// The key sequence after inserting `k` at position `p` and repairing the
/// neighbouring links: the previous separator's `right` becomes `k.left`, the
/// next separator's `left` becomes `k.right`.
pub open spec fn insert_repaired(keys: Seq<Key>, p: int, k: Key) -> Seq<Key>
    recommends
        0 <= p <= keys.len(),
{
    let s = keys.insert(p, k);
    let s1 = if p > 0 {
        s.update(p - 1, (Key { value: s[p - 1].value, left: s[p - 1].left, right: k.left }))
    } else {
        s
    };
    if p + 1 < s1.len() {
        s1.update(p + 1, (Key { value: s1[p + 1].value, left: k.right, right: s1[p + 1].right }))
    } else {
        s1
    }
}

/// Index of the first separator whose value is strictly greater than
/// `target`, or `keys.len()` if there is none.
pub open spec fn first_gt_index(keys: Seq<Key>, target: u64) -> int
    decreases keys.len(),
{
    if keys.len() == 0 {
        0
    } else if keys[0].value > target {
        0
    } else {
        1 + first_gt_index(keys.drop_first(), target)
    }
}

/// `first_gt_index` lands within bounds, past every separator at most
/// `target`, and on one strictly greater when any exists.
pub proof fn lemma_first_gt_index(keys: Seq<Key>, target: u64)
    ensures
        0 <= first_gt_index(keys, target) <= keys.len(),
        forall|j: int| 0 <= j < first_gt_index(keys, target) ==> keys[j].value <= target,
        first_gt_index(keys, target) < keys.len() ==> keys[first_gt_index(
            keys,
            target,
        )].value > target,
    decreases keys.len(),
{
    if keys.len() == 0 {
    } else if keys[0].value > target {
    } else {
        lemma_first_gt_index(keys.drop_first(), target);
        let r = first_gt_index(keys, target);
        assert forall|j: int| 0 <= j < r implies keys[j].value <= target by {
            if j > 0 {
                assert(keys.drop_first()[j - 1] == keys[j]);
            }
        }
        if r < keys.len() {
            assert(keys.drop_first()[r - 1] == keys[r]);
        }
    }
}

/// The child that the descent for `target` follows out of a node: the `left`
/// of the first separator strictly greater than `target`, else the `right` of
/// the last separator.
pub open spec fn spec_next(n: Node, target: u64) -> usize {
    let keys = n.keys_vector@;
    let i = first_gt_index(keys, target);
    if i < keys.len() {
        keys[i].left->0
    } else {
        keys.last().right->0
    }
}

/// Per-node structural soundness within an arena: the node's own invariant,
/// children indices in bounds, every child exactly one level below its node
/// (so all leaves of a well-formed tree sit at equal depth), and leaves
/// childless.
pub open spec fn node_ok(nodes: Seq<Node>, heights: Seq<nat>, j: int) -> bool
    recommends
        0 <= j < nodes.len(),
        heights.len() == nodes.len(),
{
    let n = nodes[j];
    &&& n.inv()
    &&& (n.node_type == NodeType::Leaf ==> all_children_none(n.keys_vector@))
    &&& (forall|c: usize| #[trigger]
        n.spec_child_edge(c) ==> c < nodes.len() && heights[c as int] + 1 == heights[j])
    &&& (!n.spec_has_children() ==> heights[j] == 0)
}

/// Every node of the arena is structurally sound.
pub open spec fn arena_ok(nodes: Seq<Node>, heights: Seq<nat>) -> bool {
    &&& heights.len() == nodes.len()
    &&& forall|j: int| 0 <= j < nodes.len() ==> #[trigger] node_ok(nodes, heights, j)
}

/// What `Node::search` decides: `target` is a separator value here, or —
/// descending from an internal node — in the subtree the descent follows.
pub open spec fn spec_search(nodes: Seq<Node>, heights: Seq<nat>, idx: int, target: u64) -> bool
    decreases heights[idx],
    when arena_ok(nodes, heights) && 0 <= idx < nodes.len()
    via spec_search_decreases
{
    let n = nodes[idx];
    if n.spec_has_key(target) {
        true
    } else if n.node_type == NodeType::Leaf || !n.spec_has_children() {
        false
    } else {
        spec_search(nodes, heights, spec_next(n, target) as int, target)
    }
}

#[via_fn]
proof fn spec_search_decreases(nodes: Seq<Node>, heights: Seq<nat>, idx: int, target: u64) {
    let n = nodes[idx];
    if !n.spec_has_key(target) && !(n.node_type == NodeType::Leaf || !n.spec_has_children()) {
        lemma_next_is_child(nodes, heights, idx, target);
    }
}

/// The node where the insertion descent for `target` ends: follow `spec_next`
/// out of every node that has children, stop at the first childless one.
pub open spec fn spec_descend(nodes: Seq<Node>, heights: Seq<nat>, idx: int, target: u64) -> int
    decreases heights[idx],
    when arena_ok(nodes, heights) && 0 <= idx < nodes.len()
    via spec_descend_decreases
{
    let n = nodes[idx];
    if !n.spec_has_children() {
        idx
    } else {
        spec_descend(nodes, heights, spec_next(n, target) as int, target)
    }
}

#[via_fn]
proof fn spec_descend_decreases(nodes: Seq<Node>, heights: Seq<nat>, idx: int, target: u64) {
    if nodes[idx].spec_has_children() {
        lemma_next_is_child(nodes, heights, idx, target);
    }
}

/// Under `arena_ok`, the descent target of a node with children is one of its
/// child indices, one level below it.
pub proof fn lemma_next_is_child(nodes: Seq<Node>, heights: Seq<nat>, idx: int, target: u64)
    requires
        arena_ok(nodes, heights),
        0 <= idx < nodes.len(),
        nodes[idx].spec_has_children(),
    ensures
        nodes[idx].spec_child_edge(spec_next(nodes[idx], target)),
        spec_next(nodes[idx], target) < nodes.len(),
        heights[spec_next(nodes[idx], target) as int] + 1 == heights[idx],
{
    let n = nodes[idx];
    let keys = n.keys_vector@;
    assert(node_ok(nodes, heights, idx));
    lemma_has_children_all_some(n);
    lemma_first_gt_index(keys, target);
    let i = first_gt_index(keys, target);
    if i < keys.len() {
        assert(keys[i].left is Some);
        assert(keys[i].left == Some(spec_next(n, target)));
    } else {
        assert(keys[keys.len() - 1].right is Some);
        assert(keys[keys.len() - 1].right == Some(spec_next(n, target)));
    }
    assert(n.spec_child_edge(spec_next(n, target)));
}

/// A sound node that has a child has all its child references present, and
/// holds at least one separator.
pub proof fn lemma_has_children_all_some(n: Node)
    requires
        n.inv(),
        n.spec_has_children(),
    ensures
        all_children_some(n.keys_vector@),
        n.keys_vector@.len() > 0,
{
    let keys = n.keys_vector@;
    if keys.len() > 0 && keys.last().right is Some {
        assert(!all_children_none(keys));
    } else {
        let i = choose|i: int| 0 <= i < keys.len() && keys[i].left is Some;
        assert(keys[i].left is Some);
        assert(!all_children_none(keys));
    }
}

impl Node {
    /// The node invariant: ascending separators, the shared-child rule, and a
    /// node either wholly leaf-like or wholly internal-like.
    pub open spec fn inv(self) -> bool {
        &&& keys_sorted(self.keys_vector@)
        &&& shared_children(self.keys_vector@)
        &&& (all_children_none(self.keys_vector@) || all_children_some(self.keys_vector@))
    }

    /// `target` is one of this node's own separator values.
    pub open spec fn spec_has_key(self, target: u64) -> bool {
        seq_has_value(self.keys_vector@, target)
    }

    /// Some separator of this node carries a child reference.
    pub open spec fn spec_has_children(self) -> bool {
        ||| (self.keys_vector@.len() > 0 && self.keys_vector@.last().right is Some)
        ||| exists|i: int| 0 <= i < self.keys_vector@.len() && self.keys_vector@[i].left is Some
    }

    /// `c` is one of this node's child indices.
    pub open spec fn spec_child_edge(self, c: usize) -> bool {
        seq_has_edge(self.keys_vector@, c)
    }

    pub fn new(node_type: NodeType, keys_vector: Vec<Key>) -> (n: Node)
        ensures
            n.node_type == node_type,
            n.keys_vector == keys_vector,
    {
        Node { node_type, keys_vector }
    }

    /// Membership in the whole subtree rooted at `nodes[idx]`: check this
    /// node's separators, then recurse into the child chosen by `get_next`.
    pub fn search(nodes: &Vec<Node>, idx: usize, target: u64, heights: Ghost<Seq<nat>>) -> (r:
        bool)
        requires
            arena_ok(nodes@, heights@),
            idx < nodes@.len(),
        ensures
            r == spec_search(nodes@, heights@, idx as int, target),
        decreases heights@[idx as int],
    {
        proof {
            assert(node_ok(nodes@, heights@, idx as int));
        }
        let found = nodes[idx].has_key(&target);
        if found {
            return true;
        }
        if nodes[idx].node_type == NodeType::Leaf || !nodes[idx].has_children() {
            return false;
        }
        let next = nodes[idx].get_next(target);
        proof {
            lemma_next_is_child(nodes@, heights@, idx as int, target);
        }
        Node::search(nodes, next, target, heights)
    }

    /// The child the descent for `target` follows: the `left` of the first
    /// separator strictly greater than `target`, else the `right` of the last
    /// separator. The expected reference is always present in a sound node
    /// with children.
    pub fn get_next(&self, target: u64) -> (c: usize)
        requires
            self.inv(),
            self.spec_has_children(),
        ensures
            c == spec_next(*self, target),
            self.spec_child_edge(c),
    {
        proof {
            lemma_has_children_all_some(*self);
            lemma_first_gt_index(self.keys_vector@, target);
        }
        let n = self.keys_vector.len();
        let mut i: usize = 0;
        while i < n
            invariant
                n == self.keys_vector@.len(),
                0 <= i <= n,
                self.inv(),
                all_children_some(self.keys_vector@),
                forall|j: int| 0 <= j < i ==> self.keys_vector@[j].value <= target,
            decreases n - i,
        {
            if self.keys_vector[i].value > target {
                proof {
                    lemma_first_gt_index(self.keys_vector@, target);
                    assert(first_gt_index(self.keys_vector@, target) == i);
                    assert(self.keys_vector@[i as int].left is Some);
                }
                let c = self.keys_vector[i].left.unwrap();
                proof {
                    assert(self.keys_vector@[i as int].left == Some(c));
                }
                return c;
            }
            i += 1;
        }
        proof {
            lemma_first_gt_index(self.keys_vector@, target);
            assert(first_gt_index(self.keys_vector@, target) == n);
            assert(self.keys_vector@[n - 1].right is Some);
        }
        let c = self.keys_vector[n - 1].right.unwrap();
        proof {
            assert(self.keys_vector@[n - 1].right == Some(c));
        }
        c
    }

    /// Insert `value` as a childless separator at its sorted position; an
    /// already-present value is silently ignored.
    pub fn leaf_insert_sorted(&mut self, value: u64)
        requires
            old(self).inv(),
            !old(self).spec_has_children(),
        ensures
            final(self).inv(),
            !final(self).spec_has_children(),
            final(self).node_type == old(self).node_type,
            all_children_none(final(self).keys_vector@),
            old(self).spec_has_key(value) ==> final(self).keys_vector@ == old(self).keys_vector@,
            !old(self).spec_has_key(value) ==> exists|p: int|
                #[trigger] sorted_insert_pos(old(self).keys_vector@, p, value) && final(self).keys_vector@ == old(self).keys_vector@.insert(
                    p,
                    (Key { value, left: None, right: None }),
                ),
            final(self).spec_has_key(value),
            forall|v: u64| old(self).spec_has_key(v) ==> final(self).spec_has_key(v),
            forall|v: u64|
                final(self).spec_has_key(v) ==> old(self).spec_has_key(v) || v == value,
            final(self).keys_vector@.len() <= old(self).keys_vector@.len() + 1,
    {
        proof {
            lemma_leaf_is_all_none(*self);
        }
        let (found, pos) = search_position(&self.keys_vector, value);
        if !found {
            self.keys_vector.insert(pos, Key { value, left: None, right: None });
            proof {
                let s0 = old(self).keys_vector@;
                let s1 = self.keys_vector@;
                let p = pos as int;
                assert(sorted_insert_pos(s0, p, value));
                assert forall|i: int, j: int| 0 <= i < j < s1.len() implies s1[i].value
                    < s1[j].value by {
                    if i < p && j > p {
                        assert(s1[i] == s0[i] && s1[j] == s0[j - 1]);
                    }
                }
                assert(self.spec_has_key(value)) by {
                    assert(s1[p].value == value);
                }
                assert forall|v: u64| old(self).spec_has_key(v) implies self.spec_has_key(v) by {
                    let i = choose|i: int| 0 <= i < s0.len() && s0[i].value == v;
                    if i < p {
                        assert(s1[i].value == v);
                    } else {
                        assert(s1[i + 1].value == v);
                    }
                }
                assert forall|v: u64| self.spec_has_key(v) implies old(self).spec_has_key(v) || v
                    == value by {
                    let i = choose|i: int| 0 <= i < s1.len() && s1[i].value == v;
                    if i < p {
                        assert(s0[i].value == v);
                    } else if i > p {
                        assert(s0[i - 1].value == v);
                    }
                }
            }
        } else {
            proof {
                assert(old(self).spec_has_key(value));
            }
        }
    }

    /// Insert a promoted separator (both children present) at its sorted
    /// position and repair the neighbouring links, restoring the shared-child
    /// rule across the expanded sequence. An already-present value is ignored
    /// (defensive; it does not arise during splitting).
    #[verifier::rlimit(100)]
    pub fn insert_key_sorted(&mut self, key: Key)
        requires
            old(self).inv(),
            all_children_some(old(self).keys_vector@),
            key.left is Some,
            key.right is Some,
        ensures
            final(self).inv(),
            all_children_some(final(self).keys_vector@),
            final(self).node_type == old(self).node_type,
            old(self).spec_has_key(key.value) ==> final(self).keys_vector@ == old(self).keys_vector@,
            !old(self).spec_has_key(key.value) ==> exists|p: int|
                #[trigger] sorted_insert_pos(old(self).keys_vector@, p, key.value) && final(self).keys_vector@ == insert_repaired(old(self).keys_vector@, p, key),
            final(self).keys_vector@.len() <= old(self).keys_vector@.len() + 1,
            final(self).spec_has_key(key.value),
            forall|c: usize|
                final(self).spec_child_edge(c) ==> old(self).spec_child_edge(c) || key.left
                    == Some(c) || key.right == Some(c),
            forall|v: u64| old(self).spec_has_key(v) ==> final(self).spec_has_key(v),
            forall|v: u64|
                final(self).spec_has_key(v) ==> old(self).spec_has_key(v) || v == key.value,
    {
        let (found, pos) = search_position(&self.keys_vector, key.value);
        if found {
            proof {
                assert(old(self).spec_has_key(key.value));
            }
            return;
        }
        self.keys_vector.insert(pos, key);
        if pos > 0 {
            let mut prev = self.keys_vector[pos - 1];
            prev.right = key.left;
            self.keys_vector.set(pos - 1, prev);
        }
        if pos < self.keys_vector.len() - 1 {
            let mut next = self.keys_vector[pos + 1];
            next.left = key.right;
            self.keys_vector.set(pos + 1, next);
        }
        proof {
            let s0 = old(self).keys_vector@;
            let s1 = self.keys_vector@;
            let p = pos as int;
            assert(sorted_insert_pos(s0, p, key.value));
            assert(s1 =~= insert_repaired(s0, p, key));
            lemma_insert_repaired_ok(s0, p, key);
            assert(self.spec_has_key(key.value)) by {
                assert(s1[p].value == key.value);
            }
        }
    }

    /// Membership test over this node's own separators.
    pub fn has_key(&self, target: &u64) -> (r: bool)
        ensures
            r == self.spec_has_key(*target),
    {
        let n = self.keys_vector.len();
        let mut i: usize = 0;
        while i < n
            invariant
                n == self.keys_vector@.len(),
                0 <= i <= n,
                forall|j: int| 0 <= j < i ==> self.keys_vector@[j].value != *target,
            decreases n - i,
        {
            if self.keys_vector[i].value == *target {
                return true;
            }
            i += 1;
        }
        false
    }

    /// Whether at least one separator carries a child reference. A node with
    /// no keys (a fresh root) counts as leaf-like.
    pub fn has_children(&self) -> (r: bool)
        ensures
            r == self.spec_has_children(),
    {
        let n = self.keys_vector.len();
        if n > 0 {
            if self.keys_vector[n - 1].right.is_some() {
                return true;
            }
        }
        let mut i: usize = 0;
        while i < n
            invariant
                n == self.keys_vector@.len(),
                0 <= i <= n,
                forall|j: int| 0 <= j < i ==> self.keys_vector@[j].left is None,
            decreases n - i,
        {
            if self.keys_vector[i].left.is_some() {
                return true;
            }
            i += 1;
        }
        false
    }

    /// Collect children in B-tree order: the `left` of each separator, then
    /// the last separator's `right` (if any).
    pub fn collect_children(&self) -> (ch: Vec<usize>)
        requires
            self.inv(),
            self.keys_vector@.len() > 0,
        ensures
            all_children_none(self.keys_vector@) ==> ch@.len() == 0,
            all_children_some(self.keys_vector@) ==> {
                &&& ch@.len() == self.keys_vector@.len() + 1
                &&& (forall|i: int|
                    0 <= i < self.keys_vector@.len() ==> ch@[i] == self.keys_vector@[i].left->0)
                &&& ch@[self.keys_vector@.len() as int] == self.keys_vector@.last().right->0
            },
            forall|i: int| 0 <= i < ch@.len() ==> self.spec_child_edge(ch@[i]),
    {
        let mut ch: Vec<usize> = Vec::new();
        let n = self.keys_vector.len();
        let mut i: usize = 0;
        while i < n
            invariant
                n == self.keys_vector@.len(),
                0 <= i <= n,
                self.inv(),
                all_children_none(self.keys_vector@) ==> ch@.len() == 0,
                all_children_some(self.keys_vector@) ==> ch@.len() == i && (forall|j: int|
                    0 <= j < i ==> ch@[j] == self.keys_vector@[j].left->0),
                forall|j: int| 0 <= j < ch@.len() ==> self.spec_child_edge(ch@[j]),
            decreases n - i,
        {
            match self.keys_vector[i].left {
                Some(l) => {
                    proof {
                        assert(self.keys_vector@[i as int].left == Some(l));
                        assert(!all_children_none(self.keys_vector@));
                        assert(self.spec_child_edge(l));
                    }
                    ch.push(l);
                },
                None => {
                    proof {
                        assert(!all_children_some(self.keys_vector@));
                    }
                },
            }
            i += 1;
        }
        match self.keys_vector[n - 1].right {
            Some(r) => {
                proof {
                    assert(self.keys_vector@[n - 1].right == Some(r));
                    assert(!all_children_none(self.keys_vector@));
                    assert(self.spec_child_edge(r));
                }
                ch.push(r);
            },
            None => {
                proof {
                    assert(!all_children_some(self.keys_vector@));
                }
            },
        }
        ch
    }
}

/// Inserting a separator at its sorted position with neighbour repair keeps
/// the sequence sound, preserves every value while adding the new one, and
/// adds no child references other than the new separator's own.
#[verifier::rlimit(100)]
pub proof fn lemma_insert_repaired_ok(s0: Seq<Key>, p: int, k: Key)
    requires
        keys_sorted(s0),
        shared_children(s0),
        all_children_some(s0),
        k.left is Some,
        k.right is Some,
        sorted_insert_pos(s0, p, k.value),
    ensures
        ({
            let s1 = insert_repaired(s0, p, k);
            &&& s1.len() == s0.len() + 1
            &&& keys_sorted(s1)
            &&& shared_children(s1)
            &&& all_children_some(s1)
            &&& s1[p] == k
            &&& (forall|v: u64| #[trigger] seq_has_value(s0, v) ==> seq_has_value(s1, v))
            &&& (forall|v: u64| #[trigger]
                seq_has_value(s1, v) ==> seq_has_value(s0, v) || v == k.value)
            &&& (forall|c: usize| #[trigger]
                seq_has_edge(s1, c) ==> seq_has_edge(s0, c) || k.left == Some(c) || k.right
                    == Some(c))
        }),
{
    let s1 = insert_repaired(s0, p, k);
    assert(s1.len() == s0.len() + 1);
    assert(forall|j: int| 0 <= j < p - 1 ==> s1[j] == s0[j]);
    assert(forall|j: int| p + 1 < j < s1.len() ==> s1[j] == s0[j - 1]);
    assert(forall|j: int| 0 <= j < p ==> s1[j].value == s0[j].value && s1[j].left == s0[j].left);
    assert(forall|j: int|
        p < j < s1.len() ==> s1[j].value == s0[j - 1].value && s1[j].right == s0[j - 1].right);
    assert(p > 0 ==> s1[p - 1].right == k.left);
    assert(p + 1 < s1.len() ==> s1[p + 1].left == k.right);
    assert(s1[p] == k);
    assert forall|i: int, j: int| 0 <= i < j < s1.len() implies s1[i].value < s1[j].value by {
        if i < p && j > p {
            assert(s0[i].value < k.value && k.value < s0[j - 1].value);
        }
    }
    assert forall|i: int| 0 <= i < s1.len() - 1 implies s1[i].right == s1[i + 1].left by {
        if i < p - 1 {
            assert(s1[i] == s0[i] && s1[i + 1].left == s0[i + 1].left);
        } else if i == p - 1 {
            assert(s1[i].right == k.left && s1[p].left == k.left);
        } else if i == p {
            assert(s1[p].right == k.right);
        } else {
            assert(s1[i].right == s0[i - 1].right && s1[i + 1].left == s0[i].left);
        }
    }
    assert forall|v: u64| #[trigger] seq_has_value(s0, v) implies seq_has_value(s1, v) by {
        let i = choose|i: int| 0 <= i < s0.len() && s0[i].value == v;
        if i < p {
            assert(s1[i].value == v);
        } else {
            assert(s1[i + 1].value == v);
        }
    }
    assert forall|v: u64| #[trigger] seq_has_value(s1, v) implies seq_has_value(s0, v) || v
        == k.value by {
        let i = choose|i: int| 0 <= i < s1.len() && s1[i].value == v;
        if i < p {
            assert(s0[i].value == v);
        } else if i > p {
            assert(s0[i - 1].value == v);
        }
    }
    assert forall|c: usize| #[trigger] seq_has_edge(s1, c) implies seq_has_edge(s0, c) || k.left
        == Some(c) || k.right == Some(c) by {
        let i = choose|i: int|
            0 <= i < s1.len() && (s1[i].left == Some(c) || s1[i].right == Some(c));
        if i < p - 1 {
            assert(s0[i].left == Some(c) || s0[i].right == Some(c));
        } else if i == p - 1 {
            assert(s1[i].left == s0[i].left);
        } else if i == p + 1 {
            assert(s1[i].right == s0[i - 1].right);
        } else if i > p + 1 {
            assert(s0[i - 1].left == Some(c) || s0[i - 1].right == Some(c));
        }
    }
}

/// A contiguous slice of a sound separator sequence is itself sound.
pub proof fn lemma_subrange_inv(keys: Seq<Key>, sub: Seq<Key>, lo: int, hi: int)
    requires
        keys_sorted(keys),
        shared_children(keys),
        all_children_none(keys) || all_children_some(keys),
        0 <= lo <= hi <= keys.len(),
        sub == keys.subrange(lo, hi),
    ensures
        keys_sorted(sub),
        shared_children(sub),
        all_children_none(sub) || all_children_some(sub),
{
    assert forall|i: int, j: int| 0 <= i < j < sub.len() implies sub[i].value < sub[j].value by {
        assert(sub[i] == keys[lo + i] && sub[j] == keys[lo + j]);
    }
    assert forall|i: int| 0 <= i < sub.len() - 1 implies sub[i].right == sub[i + 1].left by {
        assert(sub[i] == keys[lo + i] && sub[i + 1] == keys[lo + i + 1]);
    }
    if all_children_none(keys) {
        assert forall|i: int| 0 <= i < sub.len() implies sub[i].left is None && sub[i].right is None by {
            assert(sub[i] == keys[lo + i]);
        }
    } else {
        assert forall|i: int| 0 <= i < sub.len() implies sub[i].left is Some && sub[i].right is Some by {
            assert(sub[i] == keys[lo + i]);
        }
    }
}

/// A node whose separators all lack children has no children at all.
pub proof fn lemma_leaf_is_all_none(n: Node)
    requires
        n.inv(),
        !n.spec_has_children(),
    ensures
        all_children_none(n.keys_vector@),
{
    if n.keys_vector@.len() > 0 && !all_children_none(n.keys_vector@) {
        assert(all_children_some(n.keys_vector@));
        assert(n.keys_vector@[0].left is Some);
    }
}

/// Binary search over an ascending key sequence: whether `value` is present,
/// and the position where it is or belongs.
fn search_position(keys: &Vec<Key>, value: u64) -> (r: (bool, usize))
    requires
        keys_sorted(keys@),
    ensures
        r.1 <= keys@.len(),
        r.0 ==> r.1 < keys@.len() && keys@[r.1 as int].value == value,
        !r.0 ==> sorted_insert_pos(keys@, r.1 as int, value),
{
    let mut lo: usize = 0;
    let mut hi: usize = keys.len();
    while lo < hi
        invariant
            lo <= hi <= keys@.len(),
            keys_sorted(keys@),
            forall|j: int| 0 <= j < lo ==> keys@[j].value < value,
            forall|j: int| hi <= j < keys@.len() ==> keys@[j].value > value,
        decreases hi - lo,
    {
        let mid: usize = lo + (hi - lo) / 2;
        if keys[mid].value < value {
            lo = mid + 1;
        } else if keys[mid].value > value {
            hi = mid;
        } else {
            return (true, mid);
        }
    }
    (false, lo)
}

} // verus!
