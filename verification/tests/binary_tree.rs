use algorithms::binary_tree::{BinaryTree, Node};

#[test]
fn tree_walkthrough() {
    let mut b = BinaryTree::new();
    assert!(b.is_empty());
    for i in 0..10 {
        b.put(i, i as u32);
        assert_eq!(Some(0), b.min_key());
        assert!(!b.is_empty());
        assert_eq!(Some(i), b.max_key());
        assert_eq!(Some(i), b.floor(i));
        assert_eq!(Some(i), b.floor(10));
        assert_eq!(i as u32, b.count() - 1);
    }
    let mut it = b.iter();
    let mut seen = 0;
    while let Some(i) = it.next() {
        assert_eq!(Some(i as u32), b.get(i));
        seen += 1;
    }
    assert_eq!(seen, 10);
    for i in 0..10 {
        b.put(i, i as u32);
        assert_eq!(Some(i as u32), b.get(i));
        b.delete(i);
        assert_eq!(None, b.get(i));
    }
}

fn sample() -> BinaryTree {
    let mut b = BinaryTree::new();
    for (k, v) in [(50, 5), (30, 3), (70, 7), (20, 2), (40, 4), (60, 6), (80, 8)] {
        b.put(k, v);
    }
    b
}

#[test]
fn empty_tree() {
    let mut b = BinaryTree::new();
    assert_eq!(None, b.min_key());
    assert_eq!(None, b.max_key());
    assert_eq!(None, b.floor(5));
    assert_eq!(None, b.get(5));
    assert_eq!(0, b.count());
    assert_eq!(None, b.iter().next());
    b.delete(5);
    assert!(b.is_empty());
}

#[test]
fn put_replaces_the_value() {
    let mut b = sample();
    assert_eq!(7, b.count());
    assert_eq!(Some(4), b.get(40));
    b.put(40, 44);
    assert_eq!(Some(44), b.get(40));
    assert_eq!(7, b.count());
    assert_eq!(None, b.get(45));
}

#[test]
fn floor_finds_the_key_at_or_below() {
    let b = sample();
    assert_eq!(None, b.floor(19));
    assert_eq!(Some(20), b.floor(20));
    assert_eq!(Some(20), b.floor(29));
    assert_eq!(Some(40), b.floor(49));
    assert_eq!(Some(50), b.floor(59));
    assert_eq!(Some(80), b.floor(1000));
    assert_eq!(Some(20), b.min_key());
    assert_eq!(Some(80), b.max_key());
}

#[test]
fn keys_come_children_first_from_the_back() {
    let b = sample();
    assert_eq!(b.iter().v, vec![20, 40, 30, 60, 80, 70, 50]);
    let mut it = b.iter();
    assert_eq!(Some(50), it.next());
    assert_eq!(Some(70), it.next());
    let mut v = vec![1];
    b.iter_rec(&mut v);
    assert_eq!(v, vec![1, 20, 40, 30, 60, 80, 70, 50]);
}

#[test]
fn delete_of_a_leaf() {
    let mut b = sample();
    b.delete(20);
    assert_eq!(None, b.get(20));
    assert_eq!(b.iter().v, vec![40, 30, 60, 80, 70, 50]);
    // the counts above the leaf stay as they were
    assert_eq!(7, b.count());
}

#[test]
fn delete_lets_the_left_child_take_the_place() {
    let mut b = sample();
    b.delete(30);
    // 20 takes the place of 30; the right subtree of 30 goes with it
    assert_eq!(None, b.get(30));
    assert_eq!(None, b.get(40));
    assert_eq!(Some(2), b.get(20));
    assert_eq!(b.iter().v, vec![20, 60, 80, 70, 50]);
}

#[test]
fn delete_lets_the_right_child_take_the_place() {
    let mut b = BinaryTree::new();
    for (k, v) in [(50, 5), (30, 3), (40, 4), (35, 9)] {
        b.put(k, v);
    }
    b.delete(30);
    assert_eq!(None, b.get(30));
    assert_eq!(Some(4), b.get(40));
    assert_eq!(Some(9), b.get(35));
    assert_eq!(b.iter().v, vec![35, 40, 50]);
}

#[test]
fn delete_of_the_root() {
    let mut b = sample();
    b.delete(50);
    assert_eq!(b.iter().v, vec![20, 40, 30]);
    assert_eq!(3, b.count());
    let mut one = BinaryTree::new();
    one.put(1, 1);
    one.delete(1);
    assert!(one.is_empty());
}

#[test]
fn delete_of_a_missing_key() {
    let mut b = sample();
    b.delete(55);
    assert_eq!(b.iter().v, vec![20, 40, 30, 60, 80, 70, 50]);
}

#[test]
fn a_node_alone() {
    let mut node = Node::new(3, 30);
    assert_eq!(Some(30), node.get(3));
    assert_eq!(None, node.get(4));
    assert_eq!(1, node.count());
    assert_eq!(Some(3), node.min_key());
    assert_eq!(Some(3), node.max_key());
    assert!(node.delete(3));
    assert!(!node.delete(4));
    node.put(4, 40);
    assert_eq!(2, node.count());
    assert_eq!(Some(3), node.floor(3));
    assert_eq!(None, node.floor(2));
    assert_eq!(Some(4), node.floor(9));
}
