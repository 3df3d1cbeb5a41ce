use btree::btree::{BTree, BTreeError};
use btree::key::Key;
use btree::node::{Node, NodeType};

/// Indices of the nodes reachable from the root, in breadth-first order.
fn reachable(t: &BTree) -> Vec<usize> {
    let mut seen = vec![t.root];
    let mut queue = vec![t.root];
    while let Some(ix) = queue.pop() {
        for key in &t.nodes[ix].keys_vector {
            for child in [key.left, key.right].iter().flatten() {
                if !seen.contains(child) {
                    seen.push(*child);
                    queue.push(*child);
                }
            }
        }
    }
    seen
}

/// Depth of every childless (leaf) node reachable from the root.
fn leaf_depths(t: &BTree) -> Vec<usize> {
    let mut depths = Vec::new();
    let mut queue = vec![(t.root, 0usize)];
    while let Some((ix, d)) = queue.pop() {
        let node = &t.nodes[ix];
        let mut any_child = false;
        for key in &node.keys_vector {
            if let Some(l) = key.left {
                any_child = true;
                queue.push((l, d + 1));
            }
        }
        if let Some(last) = node.keys_vector.last() {
            if let Some(r) = last.right {
                any_child = true;
                queue.push((r, d + 1));
            }
        }
        if !any_child {
            depths.push(d);
        }
    }
    depths
}

/// Height of the tree: length of the leftmost descent minus one.
fn height(t: &BTree) -> usize {
    let mut h = 0usize;
    let mut ix = t.root;
    loop {
        let node = &t.nodes[ix];
        let next = match node.keys_vector.first() {
            Some(k) => k.left.or_else(|| node.keys_vector.last().unwrap().right),
            None => None,
        };
        match next {
            Some(c) => {
                h += 1;
                ix = c;
            }
            None => return h,
        }
    }
}

/// How many reachable separators carry `value`.
fn count_value(t: &BTree, value: u64) -> usize {
    reachable(t)
        .iter()
        .map(|&ix| {
            t.nodes[ix]
                .keys_vector
                .iter()
                .filter(|k| k.value == value)
                .count()
        })
        .sum()
}

fn assert_structural_invariants(t: &BTree) {
    let max = 2 * t.degree - 1;
    for ix in reachable(t) {
        let keys = &t.nodes[ix].keys_vector;
        assert!(keys.len() <= max, "node {ix} exceeds 2t-1 separators");
        for w in keys.windows(2) {
            assert!(w[0].value < w[1].value, "separators not ascending");
            assert_eq!(w[0].right, w[1].left, "shared-child rule broken");
        }
        let lefts = keys.iter().filter(|k| k.left.is_some()).count();
        assert!(
            lefts == 0 || lefts == keys.len(),
            "node mixes childless and child-bearing separators"
        );
    }
}

#[test]
fn new_tree_is_empty() {
    let t = BTree::new(2);
    assert_eq!(t.degree, 2);
    assert_eq!(t.nodes.len(), 1);
    assert!(t.nodes[t.root].keys_vector.is_empty());
    assert_eq!(t.nodes[t.root].node_type, NodeType::Root);
    assert!(!t.search(0));
    assert!(!t.search(u64::MAX));
}

#[test]
fn delete_is_unimplemented() {
    let mut t = BTree::new(2);
    t.insert(7);
    assert_eq!(t.delete(7), Err(BTreeError::Unimplemented));
    assert_eq!(t.delete(99), Err(BTreeError::Unimplemented));
    assert!(t.search(7));
}

#[test]
fn insert_and_search_single() {
    let mut t = BTree::new(4);
    t.insert(20);
    assert!(t.search(20));
    assert!(!t.search(21));
}

#[test]
fn scenario_degree_two_search_after_each_insert() {
    let values = [10u64, 20, 5, 6, 12, 30, 7, 17];
    let mut t = BTree::new(2);
    for (n, &v) in values.iter().enumerate() {
        t.insert(v);
        for &prev in &values[..=n] {
            assert!(t.search(prev), "lost {prev} after inserting {v}");
        }
        for &never in &[99u64, 0, 11, 13, 1000] {
            assert!(!t.search(never), "found never-inserted {never}");
        }
        assert_structural_invariants(&t);
    }
}

#[test]
fn scenario_degree_two_root_splits() {
    let mut t = BTree::new(2);
    for v in [10u64, 20, 5, 6, 12, 30, 7] {
        t.insert(v);
    }
    // inserting 7 overflows the left leaf and then the root itself: the new
    // root holds the single promoted median
    assert_eq!(t.nodes[t.root].keys_vector.len(), 1);
    assert_eq!(height(&t), 2);
    t.insert(17);
    assert_eq!(t.nodes[t.root].keys_vector.len(), 1);
    for v in [10u64, 20, 5, 6, 12, 30, 7, 17] {
        assert!(t.search(v));
    }
    assert_structural_invariants(&t);
}

#[test]
fn scenario_duplicate_insert_is_ignored() {
    let mut t = BTree::new(2);
    t.insert(42);
    t.insert(42);
    assert!(t.search(42));
    assert_eq!(count_value(&t, 42), 1);
}

#[test]
fn duplicate_insert_in_larger_tree() {
    let mut t = BTree::new(2);
    for v in [8u64, 4, 12, 2, 6, 10, 14] {
        t.insert(v);
    }
    // re-inserting a value that sits in a leaf is ignored outright
    let before: Vec<u64> = (0..20).filter(|&v| t.search(v)).collect();
    t.insert(2);
    let after: Vec<u64> = (0..20).filter(|&v| t.search(v)).collect();
    assert_eq!(before, after, "re-inserting a present value changed membership");
    assert_eq!(count_value(&t, 2), 1);
    // re-inserting a value that sits in an internal node also leaves the set
    // of reachable values unchanged
    t.insert(4);
    let after2: Vec<u64> = (0..20).filter(|&v| t.search(v)).collect();
    assert_eq!(before, after2, "re-inserting a separator changed membership");
}

#[test]
fn search_matches_inserted_set() {
    for degree in [2usize, 3, 4] {
        let mut t = BTree::new(degree);
        let inserted: Vec<u64> = (0..60).map(|i| (i * 37 + 11) % 200).collect();
        for &v in &inserted {
            t.insert(v);
        }
        for v in 0..200u64 {
            assert_eq!(
                t.search(v),
                inserted.contains(&v),
                "membership wrong for {v} at degree {degree}"
            );
        }
        assert_structural_invariants(&t);
    }
}

#[test]
fn all_leaves_sit_at_equal_depth() {
    for degree in [2usize, 3] {
        let mut t = BTree::new(degree);
        for i in 0..100u64 {
            t.insert(i * 7 % 101);
            let depths = leaf_depths(&t);
            assert!(!depths.is_empty());
            assert!(
                depths.iter().all(|&d| d == depths[0]),
                "leaves at unequal depths: {depths:?}"
            );
        }
    }
}

#[test]
fn root_split_grows_height_by_exactly_one() {
    let mut t = BTree::new(2);
    let mut last_height = height(&t);
    for i in 0..200u64 {
        let root_before = t.nodes[t.root].keys_vector.len();
        t.insert(i);
        let h = height(&t);
        assert!(h == last_height || h == last_height + 1);
        if h == last_height + 1 {
            assert_eq!(t.nodes[t.root].keys_vector.len(), 1);
            assert_eq!(root_before, 2 * t.degree - 2);
        }
        last_height = h;
    }
    assert!(last_height > 1);
}

#[test]
fn size_bound_holds_after_every_insert() {
    let mut t = BTree::new(3);
    for i in 0..150u64 {
        t.insert((i * 13) % 97);
        let max = 2 * t.degree - 1;
        for ix in reachable(&t) {
            assert!(t.nodes[ix].keys_vector.len() <= max);
        }
    }
}

#[test]
fn key_new_sets_fields() {
    let k = Key::new(9, Some(1), Some(2));
    assert_eq!(k.value, 9);
    assert_eq!(k.left, Some(1));
    assert_eq!(k.right, Some(2));
    let bare = Key::new(3, None, None);
    assert!(bare.left.is_none() && bare.right.is_none());
}

#[test]
fn node_new_sets_fields() {
    let n = Node::new(NodeType::Leaf, vec![Key::new(5, None, None)]);
    assert_eq!(n.node_type, NodeType::Leaf);
    assert_eq!(n.keys_vector.len(), 1);
    assert_eq!(n.keys_vector[0].value, 5);
}

#[test]
fn leaf_insert_sorted_keeps_order_and_ignores_duplicates() {
    let mut n = Node::new(NodeType::Leaf, Vec::new());
    for v in [5u64, 1, 3, 1, 5, 2] {
        n.leaf_insert_sorted(v);
    }
    let values: Vec<u64> = n.keys_vector.iter().map(|k| k.value).collect();
    assert_eq!(values, vec![1, 2, 3, 5]);
    assert!(n.keys_vector.iter().all(|k| k.left.is_none() && k.right.is_none()));
}

#[test]
fn insert_key_sorted_repairs_neighbouring_links() {
    let keys = vec![Key::new(10, Some(0), Some(1)), Key::new(20, Some(1), Some(2))];
    let mut n = Node::new(NodeType::Internal, keys);
    n.insert_key_sorted(Key::new(15, Some(7), Some(8)));
    let values: Vec<u64> = n.keys_vector.iter().map(|k| k.value).collect();
    assert_eq!(values, vec![10, 15, 20]);
    // the previous separator now leads to the new left half, the next one to
    // the new right half
    assert_eq!(n.keys_vector[0].right, Some(7));
    assert_eq!(n.keys_vector[1].left, Some(7));
    assert_eq!(n.keys_vector[1].right, Some(8));
    assert_eq!(n.keys_vector[2].left, Some(8));
}

#[test]
fn insert_key_sorted_ignores_existing_value() {
    let keys = vec![Key::new(10, Some(0), Some(1)), Key::new(20, Some(1), Some(2))];
    let mut n = Node::new(NodeType::Internal, keys);
    n.insert_key_sorted(Key::new(10, Some(7), Some(8)));
    assert_eq!(n.keys_vector.len(), 2);
    assert_eq!(n.keys_vector[0].left, Some(0));
    assert_eq!(n.keys_vector[0].right, Some(1));
}

#[test]
fn has_key_finds_own_separators_only() {
    let keys = vec![Key::new(10, None, None), Key::new(20, None, None)];
    let n = Node::new(NodeType::Leaf, keys);
    assert!(n.has_key(&10));
    assert!(n.has_key(&20));
    assert!(!n.has_key(&15));
}

#[test]
fn has_children_detects_child_references() {
    let leafy = Node::new(NodeType::Leaf, vec![Key::new(1, None, None)]);
    assert!(!leafy.has_children());
    let empty = Node::new(NodeType::Root, Vec::new());
    assert!(!empty.has_children());
    let inner = Node::new(NodeType::Internal, vec![Key::new(1, Some(0), Some(1))]);
    assert!(inner.has_children());
}

#[test]
fn get_next_follows_the_separator_ranges() {
    let keys = vec![Key::new(10, Some(0), Some(1)), Key::new(20, Some(1), Some(2))];
    let n = Node::new(NodeType::Internal, keys);
    assert_eq!(n.get_next(5), 0);
    assert_eq!(n.get_next(10), 1);
    assert_eq!(n.get_next(15), 1);
    assert_eq!(n.get_next(20), 2);
    assert_eq!(n.get_next(25), 2);
}

#[test]
fn collect_children_in_order() {
    let keys = vec![Key::new(10, Some(0), Some(1)), Key::new(20, Some(1), Some(2))];
    let n = Node::new(NodeType::Internal, keys);
    assert_eq!(n.collect_children(), vec![0, 1, 2]);
    let leafy = Node::new(NodeType::Leaf, vec![Key::new(1, None, None)]);
    assert!(leafy.collect_children().is_empty());
}

#[test]
fn duplicate_of_separator_survives_later_splits() {
    // re-inserting a value that became an internal separator stores a copy at
    // the window boundary of a descendant; later splits of that node must not
    // lose any membership
    let mut t = BTree::new(2);
    let values = [10u64, 20, 30, 20, 25, 22, 21, 23, 24, 26, 27];
    let mut inserted: Vec<u64> = Vec::new();
    for &v in &values {
        t.insert(v);
        if !inserted.contains(&v) {
            inserted.push(v);
        }
        for &prev in &inserted {
            assert!(t.search(prev), "lost {prev} after inserting {v}");
        }
        assert_structural_invariants(&t);
    }
    let depths = leaf_depths(&t);
    assert!(depths.iter().all(|&d| d == depths[0]));
}

#[test]
fn former_root_is_retyped_internal() {
    let mut t = BTree::new(2);
    for v in [1u64, 2, 3] {
        t.insert(v);
    }
    // the root split: exactly one Root-typed node remains, at the root index
    let roots: Vec<usize> = (0..t.nodes.len())
        .filter(|&ix| t.nodes[ix].node_type == NodeType::Root)
        .collect();
    assert_eq!(roots, vec![t.root]);
    assert!(t.search(1) && t.search(2) && t.search(3));
}
