use btree::btree::is_valid_btree;
use btree::btree::BTree;
use btree::node::Node;
use btree::node::NodeKind;
use rand::Rng;

/// The height of a subtree: zero for a childless node.
fn height(node: &Node) -> usize {
    if node.children.is_empty() {
        0
    } else {
        1 + height(&node.children[0])
    }
}

fn leaf(order: usize, keys: Vec<u64>) -> Node {
    Node { order, kind: NodeKind::Leaf, keys, children: vec![] }
}

#[test]
fn btree_valid_leaf() {
    let tree = Node { order: 3, kind: NodeKind::Leaf, keys: vec![1, 2], children: vec![] };
    assert!(is_valid_btree(&tree));
}

#[test]
fn btree_valid_tree() {
    let tree = Node {
        order: 4,
        kind: NodeKind::Root,
        keys: vec![4],
        children: vec![
            Node {
                order: 4,
                kind: NodeKind::Internal,
                keys: vec![2],
                children: vec![leaf(4, vec![1]), leaf(4, vec![3])],
            },
            Node {
                order: 4,
                kind: NodeKind::Internal,
                keys: vec![6, 8],
                children: vec![leaf(4, vec![5]), leaf(4, vec![7]), leaf(4, vec![9, 10])],
            },
        ],
    };
    assert!(is_valid_btree(&tree));
}

#[test]
fn get_tree() {
    let tree = Node {
        order: 4,
        kind: NodeKind::Root,
        keys: vec![4],
        children: vec![
            Node {
                order: 4,
                kind: NodeKind::Internal,
                keys: vec![2],
                children: vec![leaf(4, vec![1]), leaf(4, vec![3])],
            },
            Node {
                order: 4,
                kind: NodeKind::Internal,
                keys: vec![6, 8],
                children: vec![leaf(4, vec![5]), leaf(4, vec![7]), leaf(4, vec![9, 10])],
            },
        ],
    };
    // The tree contains 1, 2, ..., 10.
    for i in 1..=10u64 {
        assert_eq!(tree.get(&i), Some(&i));
    }
    assert_eq!(tree.get(&11), None);
}

#[test]
fn btree_test_valid_leaf() {
    let tree = Node { order: 3, kind: NodeKind::Leaf, keys: vec![1, 2], children: vec![] };
    assert!(is_valid_btree(&tree));
}

#[test]
fn btree_test_valid_tree() {
    let tree = Node {
        order: 4,
        kind: NodeKind::Root,
        keys: vec![4],
        children: vec![
            Node {
                order: 4,
                kind: NodeKind::Internal,
                keys: vec![2],
                children: vec![leaf(4, vec![1]), leaf(4, vec![3])],
            },
            Node {
                order: 4,
                kind: NodeKind::Internal,
                keys: vec![6, 8],
                children: vec![leaf(4, vec![5]), leaf(4, vec![7]), leaf(4, vec![9, 10])],
            },
        ],
    };
    assert!(is_valid_btree(&tree));
}

#[test]
fn test_split_children() {
    let mut tree = Node {
        order: 3,
        kind: NodeKind::Internal,
        keys: vec![2, 6],
        children: vec![leaf(3, vec![1]), leaf(3, vec![3, 4, 5]), leaf(3, vec![7])],
    };
    tree.split_children(1);
    assert_eq!(
        Node {
            order: 3,
            kind: NodeKind::Internal,
            keys: vec![2, 4, 6],
            children: vec![
                leaf(3, vec![1]),
                leaf(3, vec![3]),
                leaf(3, vec![5]),
                leaf(3, vec![7]),
            ],
        },
        tree,
    );
}

#[test]
fn insert_elements() {
    let mut rng = rand::thread_rng();
    let mut keys: Vec<u64> = vec![];
    let key_num: usize = 100;
    let key_range: u64 = 1000;
    for _ in 0..key_num {
        keys.push(rng.gen_range(0..key_range));
    }

    let mut tree = BTree::new(4);
    for key in &keys {
        tree.insert(key.clone());
    }

    for key in &keys {
        assert_eq!(tree.get(key), Some(key));
    }

    keys.sort();
    keys.dedup();
    assert_eq!(keys, tree.root.traverse());
}

#[test]
fn leaf_at_capacity_flagged_invalid() {
    // A leaf with as many keys as the order breaks `len(keys) < order`.
    let valid = Node { order: 3, kind: NodeKind::Leaf, keys: vec![1, 2], children: vec![] };
    assert!(is_valid_btree(&valid));
    let invalid = Node { order: 3, kind: NodeKind::Leaf, keys: vec![1, 2, 3], children: vec![] };
    assert!(!is_valid_btree(&invalid));
}

#[test]
fn ascending_inserts_traverse_sorted() {
    let mut tree = BTree::new(4);
    for i in 1..=10u64 {
        tree.insert(i);
    }
    assert_eq!(tree.traverse(), vec![1, 2, 3, 4, 5, 6, 7, 8, 9, 10]);
    for i in 1..=10u64 {
        assert_eq!(tree.get(&i), Some(&i));
    }
    assert_eq!(tree.get(&11), None);
    assert!(is_valid_btree(&tree.root));
}

#[test]
fn unordered_inserts_traverse_sorted() {
    let mut tree = BTree::new(3);
    for key in [5u64, 1, 9, 3, 7, 3, 5] {
        tree.insert(key);
    }
    assert_eq!(tree.traverse(), vec![1, 3, 5, 7, 9]);
}

#[test]
fn duplicate_insert_leaves_traverse_unchanged() {
    let mut tree = BTree::new(4);
    for key in [8u64, 3, 11, 5, 2, 13, 7] {
        tree.insert(key);
    }
    let before = tree.traverse();
    tree.insert(5);
    assert_eq!(tree.traverse(), before);
    tree.insert(13);
    assert_eq!(tree.traverse(), before);
}

#[test]
fn empty_tree_holds_nothing() {
    let tree = BTree::new(3);
    assert_eq!(tree.get(&0), None);
    assert_eq!(tree.get(&42), None);
    assert_eq!(tree.traverse(), Vec::<u64>::new());
    assert_eq!(height(&tree.root), 0);
}

#[test]
fn height_grows_only_on_root_split() {
    let mut tree = BTree::new(3);
    assert_eq!(height(&tree.root), 0);
    tree.insert(1);
    tree.insert(2);
    // Two keys fit in an order-3 root without overflow.
    assert_eq!(height(&tree.root), 0);
    tree.insert(3);
    // The third key overflows the root; the split grows the tree by one level.
    assert_eq!(height(&tree.root), 1);
    assert_eq!(tree.root.keys.len(), 1);
    let mut last = height(&tree.root);
    for i in 4..=64u64 {
        tree.insert(i);
        let now = height(&tree.root);
        // The height never decreases, and grows by at most one per insert,
        // only when the root splits and leaves a single promoted key behind.
        assert!(now == last || now == last + 1);
        if now == last + 1 {
            assert_eq!(tree.root.keys.len(), 1);
        }
        last = now;
    }
}

#[test]
fn random_inserts_with_duplicates() {
    let mut rng = rand::thread_rng();
    let mut keys: Vec<u64> = vec![];
    for _ in 0..500usize {
        keys.push(rng.gen_range(0..200u64));
    }
    let mut tree = BTree::new(4);
    for key in &keys {
        tree.insert(*key);
        assert!(is_valid_btree(&tree.root));
    }
    for key in &keys {
        assert_eq!(tree.get(key), Some(key));
    }
    let mut expected = keys.clone();
    expected.sort();
    expected.dedup();
    assert_eq!(tree.traverse(), expected);
}

#[test]
fn split_promotes_median_of_leaf_root() {
    let mut tree = BTree::new(4);
    for key in [10u64, 20, 30, 40] {
        tree.insert(key);
    }
    // Four keys overflow an order-4 root: the key at `order / 2` moves up.
    assert_eq!(tree.root.keys, vec![30]);
    assert_eq!(tree.root.children[0].keys, vec![10, 20]);
    assert_eq!(tree.root.children[1].keys, vec![40]);
    assert_eq!(tree.traverse(), vec![10, 20, 30, 40]);
}
