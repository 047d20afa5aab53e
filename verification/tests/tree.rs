use bst::tree::{TreeNode, BST};

type U64Tree = BST<u64>;

/// Pull every value out of a fresh traversal of `t`.
fn collect_all(t: &U64Tree) -> Vec<u64> {
    let mut out: Vec<u64> = Vec::new();
    let mut z = t.iter();
    while let Some(v) = z.next() {
        out.push(*v);
    }
    out
}

#[test]
fn iterator() {
    let mut t = U64Tree::new();
    for v in 0..10 {
        t.insert(v);
    }
    let v1: Vec<u64> = collect_all(&t);
    let v2: Vec<u64> = (0..10).collect();
    assert!(v1 == v2);
}

#[test]
fn duplicates_collapsed() {
    let mut t = U64Tree::new();
    for v in [5u64, 3, 8, 1, 4, 7, 9, 3, 5] {
        t.insert(v);
    }
    assert_eq!(collect_all(&t), vec![1, 3, 4, 5, 7, 8, 9]);
}

#[test]
fn duplicate_insert_no_effect() {
    let mut t = U64Tree::new();
    t.insert(4);
    t.insert(4);
    assert_eq!(collect_all(&t), vec![4]);
    t.insert(2);
    t.insert(6);
    let before: Vec<u64> = collect_all(&t);
    t.insert(6);
    t.insert(2);
    t.insert(4);
    assert_eq!(collect_all(&t), before);
    assert_eq!(before, vec![2, 4, 6]);
}

#[test]
fn empty_tree_exhausted() {
    let t = U64Tree::new();
    let mut z = t.iter();
    assert!(z.next().is_none());
    assert!(z.next().is_none());
}

#[test]
fn default_is_empty() {
    let t: U64Tree = Default::default();
    assert_eq!(collect_all(&t), Vec::<u64>::new());
}

#[test]
fn insertion_order_irrelevant() {
    let orders: [[u64; 5]; 4] = [
        [1, 2, 3, 4, 5],
        [5, 4, 3, 2, 1],
        [3, 1, 5, 2, 4],
        [2, 5, 1, 4, 3],
    ];
    for order in orders {
        let mut t = U64Tree::new();
        for v in order {
            t.insert(v);
        }
        assert_eq!(collect_all(&t), vec![1, 2, 3, 4, 5]);
    }
}

#[test]
fn ascending_with_extremes() {
    let mut t = U64Tree::new();
    t.insert(u64::MAX);
    t.insert(0);
    t.insert(1);
    t.insert(u64::MAX - 1);
    assert_eq!(collect_all(&t), vec![0, 1, u64::MAX - 1, u64::MAX]);
}

#[test]
fn exhaustion_idempotent() {
    let mut t = U64Tree::new();
    t.insert(7);
    t.insert(9);
    let mut z = t.iter();
    assert_eq!(z.next(), Some(&7));
    assert_eq!(z.next(), Some(&9));
    assert!(z.next().is_none());
    assert!(z.next().is_none());
    assert!(z.next().is_none());
}

#[test]
fn traversal_leaves_tree_unchanged() {
    let mut t = U64Tree::new();
    for v in [10u64, 20, 5, 15] {
        t.insert(v);
    }
    let first: Vec<u64> = collect_all(&t);
    let second: Vec<u64> = collect_all(&t);
    assert_eq!(first, second);
    assert_eq!(first, vec![5, 10, 15, 20]);
}

#[test]
fn signed_values_ordered() {
    let mut t: BST<i64> = BST::new();
    for v in [0i64, -3, 7, -1, 2] {
        t.insert(v);
    }
    let mut out: Vec<i64> = Vec::new();
    let mut z = t.iter();
    while let Some(v) = z.next() {
        out.push(*v);
    }
    assert_eq!(out, vec![-3, -1, 0, 2, 7]);
}

#[test]
fn leaf_node_constructible() {
    let _leaf: TreeNode<u64> = TreeNode::new(42);
    let mut t = U64Tree::new();
    t.insert(42);
    assert_eq!(collect_all(&t), vec![42]);
}
