use bvec::fenwick::{FenwickTree, BRANCH_FACTOR};
use bvec::node::{InternalNode, LeafBase, Node, NodeBase, NodePtr, NodeVariant, RawNodeWithLen};

#[test]
fn leaf_capacity_by_value_size() {
    assert_eq!(NodeBase::<i32>::leaf_cap(), 256);
    assert_eq!(NodeBase::<u8>::leaf_cap(), 1024);
    assert_eq!(NodeBase::<u64>::leaf_cap(), 128);
    assert_eq!(NodeBase::<()>::leaf_cap(), 2);
    assert_eq!(NodeBase::<[u8; 600]>::leaf_cap(), 2);
    assert_eq!(NodeBase::<[u8; 100]>::leaf_cap(), 10);
}

#[test]
fn full_leaf_splits_on_insert() {
    let mut leaf = LeafBase::new();
    for x in 0..256 {
        assert!(leaf.insert_value(leaf.len(), x).is_none());
    }
    assert!(leaf.is_full());
    let split = leaf.insert_value(0, -1).unwrap();
    assert_eq!(leaf.len(), 129);
    assert_eq!(split.0, 128);
    assert_eq!(leaf.remove_child(0), -1);
    assert_eq!(leaf.remove_child(0), 0);
    assert_eq!(leaf.len(), 127);
    assert!(leaf.is_underfull());
    let right = split.1.into_leaf();
    assert_eq!(right.values[0], 128);
}

#[test]
fn leaf_underfull_thresholds() {
    let mut leaf = LeafBase::new();
    for x in 0..127 {
        leaf.push_back_child(x);
    }
    assert!(leaf.is_underfull());
    leaf.push_front_child(-1);
    assert!(!leaf.is_underfull());
    assert!(leaf.is_almost_underfull());
    assert_eq!(leaf.pop_front_child(), -1);
    assert_eq!(leaf.pop_back_child(), 126);
}

#[test]
fn internal_node_lengths_follow_children() {
    let mut children = Vec::new();
    for n in 1..4 {
        let mut leaf = LeafBase::new();
        for x in 0..n {
            leaf.push_back_child(x);
        }
        children.push(RawNodeWithLen(n as usize, NodePtr::from_leaf(leaf)));
    }
    let node = InternalNode::from_child_array(children);
    let internal = node.internal_ref();
    assert_eq!(internal.len_children(), 3);
    assert_eq!(internal.len(), 6);
    assert!(!internal.is_full());
    assert!(internal.is_underfull());
    assert!(!internal.is_singleton());
    assert_eq!(internal.lengths.child_containing_index(3), (0, 2));
    assert_eq!(internal.lengths.child_containing_index_inclusive(3), (2, 1));
}

#[test]
fn full_internal_node_splits() {
    let mut node = InternalNode::new();
    for _ in 0..BRANCH_FACTOR {
        let mut leaf = LeafBase::new();
        leaf.push_back_child(1u8);
        node.push_back_child(RawNodeWithLen(1, NodePtr::from_leaf(leaf)));
    }
    assert!(node.is_full());
    let mut leaf = LeafBase::new();
    leaf.push_back_child(2u8);
    let split = node.insert_child(0, RawNodeWithLen(1, NodePtr::from_leaf(leaf))).unwrap();
    assert_eq!(node.len_children(), 17);
    assert_eq!(split.0, 16);
    assert_eq!(split.1.internal_ref().len_children(), 16);
}

#[test]
fn counted_node_from_values_and_children() {
    let leaf = Node::<i32, 4, 2>::from_value(5);
    assert_eq!(leaf.len(), 1);
    assert!(!leaf.is_full());
    match leaf.variant() {
        NodeVariant::Leaf { handle } => assert_eq!(handle, &vec![5]),
        NodeVariant::Internal { .. } => panic!(),
    }
    let parent = Node::<i32, 4, 2>::from_child_array(vec![
        Node::from_value(1),
        Node::from_value(2),
        Node::from_value(3),
    ]);
    assert_eq!(parent.len(), 3);
    assert!(!parent.is_full());
    match parent.variant() {
        NodeVariant::Internal { handle } => {
            assert_eq!(handle.len(), 4);
            assert!(handle[3].is_none());
        }
        NodeVariant::Leaf { .. } => panic!(),
    }
}

#[test]
fn fenwick_total_and_out_of_range_add() {
    let mut a = FenwickTree::new();
    a.add_wrapping(3, 10);
    a.add_wrapping(31, 5);
    a.add_wrapping(40, 100);
    assert_eq!(a.total_len(), 15);
    // adding the wrapping negation undoes an addition
    a.add_wrapping(3, 0usize.wrapping_sub(10));
    assert_eq!(a.total_len(), 5);
    let arr = a.into_array();
    assert_eq!(arr[3], 0);
    assert_eq!(arr[31], 5);
}

#[test]
fn fenwick_split_keeps_all_lengths() {
    let mut lens = [0usize; BRANCH_FACTOR];
    for i in 0..BRANCH_FACTOR {
        lens[i] = 3 * i + 1;
    }
    let mut a = FenwickTree::from_array(lens);
    let total = a.total_len();
    let b = a.split();
    assert_eq!(a.total_len() + b.total_len(), total);
    let lower = a.into_array();
    let upper = b.into_array();
    for i in 0..BRANCH_FACTOR / 2 {
        assert_eq!(lower[i], lens[i]);
        assert_eq!(upper[i], lens[i + BRANCH_FACTOR / 2]);
    }
}

#[test]
fn fenwick_with_flat_lens_hands_back_result() {
    let mut a = FenwickTree::from_array([2usize; BRANCH_FACTOR]);
    let seen = a.with_flat_lens(|arr: &mut [usize; BRANCH_FACTOR]| {
        let first = arr[0];
        arr[0] = 7;
        first
    });
    assert_eq!(seen, 2);
    assert_eq!(a.total_len(), 7 + 2 * (BRANCH_FACTOR - 1));
    assert_eq!(a.child_containing_index(7), (0, 1));
}

fn counted_values<const B: usize, const C: usize>(n: &Node<i32, B, C>, out: &mut Vec<i32>) {
    match n.variant() {
        NodeVariant::Leaf { handle } => out.extend(handle.iter().copied()),
        NodeVariant::Internal { handle } => {
            for slot in handle.iter() {
                if let Some(child) = slot {
                    counted_values(child, out);
                }
            }
        }
    }
}

fn counted_insert<const B: usize, const C: usize>(
    root: Node<i32, B, C>,
    index: usize,
    value: i32,
) -> Node<i32, B, C> {
    let mut root = root;
    match root.insert(index, value) {
        None => root,
        Some(split) => Node::from_child_array(vec![root, split]),
    }
}

#[test]
fn counted_node_insert_matches_vec() {
    let mut root = Node::<i32, 4, 3>::from_value(0);
    let mut expected = vec![0];
    let mut seed: u64 = 7;
    for x in 1..500 {
        seed = seed.wrapping_mul(6364136223846793005).wrapping_add(1442695040888963407);
        let index = (seed >> 33) as usize % (expected.len() + 1);
        expected.insert(index, x);
        root = counted_insert(root, index, x);
        assert_eq!(root.len(), expected.len());
    }
    let mut got = Vec::new();
    counted_values(&root, &mut got);
    assert_eq!(got, expected);
}

#[test]
fn counted_leaf_splits_when_full() {
    let mut leaf = Node::<i32, 4, 3>::from_value(1);
    assert!(leaf.insert(1, 2).is_none());
    assert!(leaf.insert(2, 3).is_none());
    assert!(leaf.is_full());
    let split = leaf.insert(0, 0).unwrap();
    assert_eq!(leaf.len(), 2);
    assert_eq!(split.len(), 2);
    let mut a = Vec::new();
    counted_values(&leaf, &mut a);
    counted_values(&split, &mut a);
    assert_eq!(a, vec![0, 1, 2, 3]);
}
