use segtree2::segbeats::{Elm, Node};

#[test]
fn node_of_one_value() {
    let node = Node::<i32>::new(7);
    assert_eq!(node, Node { max: [7, i32::MAX], c_max: 1, sum: 7 });
    assert_eq!(<i32 as Elm>::min_value(), i32::MAX);
}

#[test]
fn merge_of_equal_maxima_adds_the_counts() {
    let left = Node { max: [5, 2], c_max: 2, sum: 12 };
    let right = Node { max: [5, 3], c_max: 1, sum: 8 };
    assert_eq!(Node::merge(left, right), Node { max: [5, 3], c_max: 3, sum: 20 });
}

#[test]
fn merge_keeps_the_larger_maximum() {
    let left = Node { max: [9, 4], c_max: 2, sum: 22 };
    let right = Node { max: [6, 1], c_max: 3, sum: 19 };
    assert_eq!(Node::merge(left, right), Node { max: [9, 6], c_max: 2, sum: 41 });
    assert_eq!(Node::merge(right, left), Node { max: [9, 6], c_max: 2, sum: 41 });
}
