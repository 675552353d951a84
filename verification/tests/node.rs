use bvec::node::Node;
use core::mem::size_of;

#[test]
fn test_node_size() {
    assert_eq!(size_of::<Node<i32, 10, 32>>(), 2 * size_of::<usize>());
    assert_eq!(size_of::<Node<i128, 3, 3>>(), 2 * size_of::<usize>());
    assert_eq!(size_of::<Node<i64, 0, 0>>(), 2 * size_of::<usize>());

    assert_eq!(
        size_of::<Option<Node<i32, 10, 32>>>(),
        2 * size_of::<usize>()
    );
    assert_eq!(
        size_of::<Option<Node<i128, 3, 3>>>(),
        2 * size_of::<usize>()
    );
    assert_eq!(
        size_of::<Option<Node<u128, 0, 0>>>(),
        2 * size_of::<usize>()
    );
}
