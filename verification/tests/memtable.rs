use kv::memtable::node::AVLTreeNode;
use kv::memtable::tree::{
    left_right_rotate, left_rotate, right_left_rotate, right_rotate, AVLTree,
};

#[test]
fn test_balance_factor_no_children() {
    let test_node = AVLTreeNode::new(1, 1);
    assert_eq!(test_node.balance_factor(), 0)
}

#[test]
fn test_balance_factor_left_child() {
    let mut test_node = AVLTreeNode::new(1, 1);
    test_node.left = Some(Box::new(AVLTreeNode::new(2, 2)));

    assert_eq!(test_node.balance_factor(), 1)
}

#[test]
fn test_balance_factor_right_child() {
    let mut test_node = AVLTreeNode::new(1, 1);
    test_node.right = Some(Box::new(AVLTreeNode::new(2, 2)));

    assert_eq!(test_node.balance_factor(), -1)
}

#[test]
fn test_balance_factor_2_children() {
    let mut test_node = AVLTreeNode::new(1, 1);
    test_node.right = Some(Box::new(AVLTreeNode::new(2, 2)));
    test_node.left = Some(Box::new(AVLTreeNode::new(2, 2)));

    assert_eq!(test_node.balance_factor(), 0)
}

#[test]
fn test_update_height() {
    let mut test_node = AVLTreeNode::new(1, 1);
    test_node.right = Some(Box::new(AVLTreeNode::new(1, 2)));
    test_node.update_height();

    assert_eq!(test_node.height, 2);

    test_node.left = Some(Box::new(AVLTreeNode::new(1, 2)));
    test_node.update_height();

    assert_eq!(test_node.height, 2);
}

#[test]
fn test_left_rotate() {
    let mut test_node = Box::new(AVLTreeNode::new(1, 1));
    test_node.right = Some(Box::new(AVLTreeNode::new(2, 2)));
    test_node.right.as_mut().unwrap().left = Some(Box::new(AVLTreeNode::new(3, 3)));

    let balanced = left_rotate(test_node);
    assert_eq!(balanced.key, 2);
    assert_eq!(balanced.left.as_ref().map_or(0, |x| x.key), 1);
    assert_eq!(balanced.left.unwrap().right.map_or(0, |x| x.key), 3);
}

#[test]
fn test_right_rotate() {
    let mut test_node = Box::new(AVLTreeNode::new(1, 1));
    test_node.left = Some(Box::new(AVLTreeNode::new(2, 2)));
    test_node.left.as_mut().unwrap().right = Some(Box::new(AVLTreeNode::new(3, 3)));

    let balanced = right_rotate(test_node);
    assert_eq!(balanced.key, 2);
    assert_eq!(balanced.right.as_ref().map_or(0, |x| x.key), 1);
    assert_eq!(balanced.right.unwrap().left.map_or(0, |x| x.key), 3);
}

#[test]
fn test_left_right_rotate() {
    let mut test_node = Box::new(AVLTreeNode::new(1, 1));
    let mut left_node = Box::new(AVLTreeNode::new(2, 2));
    let right_node = Box::new(AVLTreeNode::new(3, 3));

    left_node.left = Some(Box::new(AVLTreeNode::new(4, 4)));
    let mut left_right_node = Box::new(AVLTreeNode::new(5, 5));
    left_right_node.left = Some(Box::new(AVLTreeNode::new(6, 6)));
    left_right_node.right = Some(Box::new(AVLTreeNode::new(7, 7)));
    left_node.right = Some(left_right_node);

    test_node.left = Some(left_node);
    test_node.right = Some(right_node);

    let balanced = left_right_rotate(test_node);

    assert_eq!(balanced.key, 5);
    let left_subtree = balanced.left.as_ref().unwrap();
    assert_eq!(left_subtree.key, 2);
    assert_eq!(left_subtree.left.as_ref().unwrap().key, 4);
    assert_eq!(left_subtree.right.as_ref().unwrap().key, 6);

    let right_subtree = balanced.right.as_ref().unwrap();
    assert_eq!(right_subtree.key, 1);
    assert_eq!(right_subtree.left.as_ref().unwrap().key, 7);
    assert_eq!(right_subtree.right.as_ref().unwrap().key, 3);
}

#[test]
fn test_right_left_rotate() {
    let mut test_node = Box::new(AVLTreeNode::new(1, 1));
    let mut right_node = Box::new(AVLTreeNode::new(2, 2));
    let left_node = Box::new(AVLTreeNode::new(3, 3));

    right_node.right = Some(Box::new(AVLTreeNode::new(4, 4)));
    let mut right_left_node = Box::new(AVLTreeNode::new(5, 5));
    right_left_node.right = Some(Box::new(AVLTreeNode::new(6, 6)));
    right_left_node.left = Some(Box::new(AVLTreeNode::new(7, 7)));
    right_node.left = Some(right_left_node);

    test_node.right = Some(right_node);
    test_node.left = Some(left_node);

    let balanced = right_left_rotate(test_node);

    assert_eq!(balanced.key, 5);
    let right_subtree = balanced.right.as_ref().unwrap();
    assert_eq!(right_subtree.key, 2);
    assert_eq!(right_subtree.right.as_ref().unwrap().key, 4);
    assert_eq!(right_subtree.left.as_ref().unwrap().key, 6);

    let left_subtree = balanced.left.as_ref().unwrap();
    assert_eq!(left_subtree.key, 1);
    assert_eq!(left_subtree.right.as_ref().unwrap().key, 7);
    assert_eq!(left_subtree.left.as_ref().unwrap().key, 3);
}

#[test]
fn test_insert_and_get_value() {
    let mut tree: AVLTree = AVLTree::new();
    tree.put(1, 2);

    let stored_value: i64 = tree.get(1).expect("key should exist");
    assert_eq!(stored_value, 2);
}

#[test]
fn test_get_invalid_key() {
    let mut tree = AVLTree::new();
    tree.put(1, 2);

    let stored_value = tree.get(4);
    assert!(stored_value.is_none());
}

#[test]
fn test_avl_tree_repeated_puts() {
    let mut tree = AVLTree::new();

    for i in 0..=127 {
        tree.put(i, i);
    }

    for i in 0..=127 {
        assert_eq!(tree.get(i).unwrap(), i);
    }
}

#[test]
fn test_avl_tree_size_none() {
    let tree = AVLTree::new();
    assert_eq!(tree.size(), 0)
}

#[test]
fn test_avl_tree_size_large() {
    let mut tree = AVLTree::new();

    for i in 0..=127 {
        tree.put(i, i);
    }

    assert_eq!(tree.size(), 128)
}
