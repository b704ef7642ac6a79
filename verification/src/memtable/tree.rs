//! The height-balanced tree: rotations, insertion, lookup and traversal.

use crate::memtable::node::{AVLTreeNode, stored_height};
use crate::records::{
    entries_map, has_key, index_of_key, insert_if_absent, keys_ascend, lemma_ascend_join,
    lemma_entry_at, lemma_entry_join, lemma_has_key_join, merged, range_of,
};
use std::collections::HashMap;
use vstd::prelude::*;

verus! {

/// The records of `tree` from left to right.
pub open spec fn in_order(tree: Option<Box<AVLTreeNode>>) -> Seq<(i64, i64)>
    decreases tree,
{
    match tree {
        None => Seq::empty(),
        Some(node) => in_order(node.left) + seq![(node.key, node.value)] + in_order(node.right),
    }
}

/// The number of nodes on the longest path from the root of `tree` down.
pub open spec fn tree_height(tree: Option<Box<AVLTreeNode>>) -> nat
    decreases tree,
{
    match tree {
        None => 0,
        Some(node) => if tree_height(node.left) >= tree_height(node.right) {
            tree_height(node.left) + 1
        } else {
            tree_height(node.right) + 1
        },
    }
}

/// Every node records its true height, and the heights of the two children of
/// a node differ by at most one.
pub open spec fn is_balanced(tree: Option<Box<AVLTreeNode>>) -> bool
    decreases tree,
{
    match tree {
        None => true,
        Some(node) => {
            &&& is_balanced(node.left)
            &&& is_balanced(node.right)
            &&& node.height == tree_height(tree)
            &&& tree_height(node.left) <= tree_height(node.right) + 1
            &&& tree_height(node.right) <= tree_height(node.left) + 1
        },
    }
}

/// `tree` is a height-balanced search tree.
pub open spec fn is_avl(tree: Option<Box<AVLTreeNode>>) -> bool {
    keys_ascend(in_order(tree)) && is_balanced(tree)
}

/// A node over `left` and `right` that records the height that its
/// children's recorded heights give.
pub open spec fn joined(
    key: i64,
    value: i64,
    left: Option<Box<AVLTreeNode>>,
    right: Option<Box<AVLTreeNode>>,
) -> Box<AVLTreeNode> {
    Box::new(
        AVLTreeNode {
            key,
            value,
            height: if stored_height(left) >= stored_height(right) {
                (stored_height(left) + 1) as u32
            } else {
                (stored_height(right) + 1) as u32
            },
            left,
            right,
        },
    )
}

/// `root` after a left rotation: its right child has become the root.
pub open spec fn left_rotated(root: Box<AVLTreeNode>) -> Box<AVLTreeNode> {
    let pivot = root.right->0;
    joined(
        pivot.key,
        pivot.value,
        Some(joined(root.key, root.value, root.left, pivot.left)),
        pivot.right,
    )
}

/// `root` after a right rotation: its left child has become the root.
pub open spec fn right_rotated(root: Box<AVLTreeNode>) -> Box<AVLTreeNode> {
    let pivot = root.left->0;
    joined(
        pivot.key,
        pivot.value,
        pivot.left,
        Some(joined(root.key, root.value, pivot.right, root.right)),
    )
}

/// The recorded heights of the three subtrees that a rotation rearranges
/// leave room for the two heights that it computes.
pub open spec fn rotation_fits(
    outer: Option<Box<AVLTreeNode>>,
    inner: Option<Box<AVLTreeNode>>,
    far: Option<Box<AVLTreeNode>>,
) -> bool {
    stored_height(outer) < u32::MAX - 1 && stored_height(inner) < u32::MAX - 1 && stored_height(
        far,
    ) < u32::MAX
}

/// Rotates left at `root`: its right child becomes the root.
pub fn left_rotate(root: Box<AVLTreeNode>) -> (rotated: Box<AVLTreeNode>)
    requires
        root.right is Some,
        rotation_fits(root.left, root.right->0.left, root.right->0.right),
    ensures
        rotated == left_rotated(root),
        in_order(Some(rotated)) == in_order(Some(root)),
{
    let ghost whole = root;
    let mut root = root;
    let mut return_node: Box<AVLTreeNode> = root.right.take().unwrap();
    root.right = return_node.left.take();
    root.update_height();
    return_node.left = Some(root);
    return_node.update_height();
    proof {
        reveal_with_fuel(in_order, 3);
        assert(in_order(Some(return_node)) =~= in_order(Some(whole)));
    }
    return_node
}

/// Rotates right at `root`: its left child becomes the root.
pub fn right_rotate(root: Box<AVLTreeNode>) -> (rotated: Box<AVLTreeNode>)
    requires
        root.left is Some,
        rotation_fits(root.right, root.left->0.right, root.left->0.left),
    ensures
        rotated == right_rotated(root),
        in_order(Some(rotated)) == in_order(Some(root)),
{
    let ghost whole = root;
    let mut root = root;
    let mut return_node: Box<AVLTreeNode> = root.left.take().unwrap();
    root.left = return_node.right.take();
    root.update_height();
    return_node.right = Some(root);
    return_node.update_height();
    proof {
        reveal_with_fuel(in_order, 3);
        assert(in_order(Some(return_node)) =~= in_order(Some(whole)));
    }
    return_node
}

/// `root` with its left child rotated left.
pub open spec fn with_left_rotated(root: Box<AVLTreeNode>) -> Box<AVLTreeNode> {
    Box::new(AVLTreeNode { left: Some(left_rotated(root.left->0)), ..*root })
}

/// `root` with its right child rotated right.
pub open spec fn with_right_rotated(root: Box<AVLTreeNode>) -> Box<AVLTreeNode> {
    Box::new(AVLTreeNode { right: Some(right_rotated(root.right->0)), ..*root })
}

/// Rotates the left child of `root` left, then `root` right.
pub fn left_right_rotate(root: Box<AVLTreeNode>) -> (rotated: Box<AVLTreeNode>)
    requires
        root.left is Some,
        root.left->0.right is Some,
        rotation_fits(
            root.left->0.left,
            root.left->0.right->0.left,
            root.left->0.right->0.right,
        ),
        rotation_fits(root.right, root.left->0.right->0.right, None),
    ensures
        rotated == right_rotated(with_left_rotated(root)),
        in_order(Some(rotated)) == in_order(Some(root)),
{
    let ghost whole = root;
    let mut root = root;
    let left: Box<AVLTreeNode> = root.left.take().unwrap();
    root.left = Some(left_rotate(left));
    proof {
        assert(in_order(Some(root)) =~= in_order(Some(whole)));
    }
    right_rotate(root)
}

/// Rotates the right child of `root` right, then `root` left.
pub fn right_left_rotate(root: Box<AVLTreeNode>) -> (rotated: Box<AVLTreeNode>)
    requires
        root.right is Some,
        root.right->0.left is Some,
        rotation_fits(
            root.right->0.right,
            root.right->0.left->0.right,
            root.right->0.left->0.left,
        ),
        rotation_fits(root.left, root.right->0.left->0.left, None),
    ensures
        rotated == left_rotated(with_right_rotated(root)),
        in_order(Some(rotated)) == in_order(Some(root)),
{
    let ghost whole = root;
    let mut root = root;
    let right: Box<AVLTreeNode> = root.right.take().unwrap();
    root.right = Some(right_rotate(right));
    proof {
        assert(in_order(Some(root)) =~= in_order(Some(whole)));
    }
    left_rotate(root)
}

/// A balanced tree has at least as many records as its height, and more
/// once the height is three.
pub proof fn lemma_height_bound(tree: Option<Box<AVLTreeNode>>)
    requires
        is_balanced(tree),
    ensures
        tree_height(tree) <= in_order(tree).len(),
        tree_height(tree) >= 3 ==> tree_height(tree) + 1 <= in_order(tree).len(),
    decreases tree,
{
    if let Some(node) = tree {
        lemma_height_bound(node.left);
        lemma_height_bound(node.right);
    }
}

/// The root of a balanced tree records the tree's true height.
pub proof fn lemma_stored_height(tree: Option<Box<AVLTreeNode>>)
    requires
        is_balanced(tree),
    ensures
        stored_height(tree) == tree_height(tree),
{
    if let Some(node) = tree {
        assert(node.height == tree_height(tree));
    }
}

/// Where the key `key` lies in a tree that has just grown by it: on the
/// side of the root that is now the taller one.
spec fn leans_to(tree: Box<AVLTreeNode>, key: i64) -> bool {
    ||| (tree.left is None && tree.right is None)
    ||| (key < tree.key && tree_height(tree.left) > tree_height(tree.right))
    ||| (key > tree.key && tree_height(tree.right) > tree_height(tree.left))
}

/// Restores the balance at `root` after `key` went into one of its subtrees,
/// of which `before` was the height of the whole tree until then.
fn balance_avl_tree(root: Box<AVLTreeNode>, key: i64, Ghost(before): Ghost<nat>) -> (balanced:
    Box<AVLTreeNode>)
    requires
        is_balanced(root.left),
        is_balanced(root.right),
        root.height == tree_height(Some(root)),
        tree_height(Some(root)) <= u32::MAX,
        tree_height(root.left) <= tree_height(root.right) + 2,
        tree_height(root.right) <= tree_height(root.left) + 2,
        tree_height(Some(root)) == before || tree_height(Some(root)) == before + 1,
        tree_height(root.left) == tree_height(root.right) + 2 ==> before == tree_height(root.left)
            && leans_to(root.left->0, key),
        tree_height(root.right) == tree_height(root.left) + 2 ==> before == tree_height(
            root.right,
        ) && leans_to(root.right->0, key),
        tree_height(Some(root)) == before + 1 && tree_height(root.left) <= tree_height(root.right)
            + 1 && tree_height(root.right) <= tree_height(root.left) + 1 ==> leans_to(root, key),
    ensures
        is_balanced(Some(balanced)),
        in_order(Some(balanced)) == in_order(Some(root)),
        tree_height(Some(balanced)) == before || tree_height(Some(balanced)) == before + 1,
        tree_height(Some(balanced)) == before + 1 ==> leans_to(balanced, key),
{
    let ghost l = root.left;
    let ghost r = root.right;
    proof {
        reveal_with_fuel(is_balanced, 4);
        reveal_with_fuel(tree_height, 4);
        lemma_stored_height(l);
        lemma_stored_height(r);
    }
    let factor: i8 = root.balance_factor();
    assert(factor == tree_height(l) - tree_height(r));
    if -1 <= factor && factor <= 1 {
        root
    } else if factor == 2 {
        let ghost ln = l->0;
        proof {
            assert(l is Some);
            lemma_stored_height(ln.left);
            lemma_stored_height(ln.right);
        }
        let single: bool = match &root.left {
            Some(left) => key < left.key,
            None => false,
        };
        if single {
            let rotated = right_rotate(root);
            proof {
                let inner = joined(root.key, root.value, ln.right, r);
                assert(rotated.right == Some(inner));
                assert(tree_height(ln.left) == tree_height(ln.right) + 1);
                assert(is_balanced(Some(inner)));
                assert(tree_height(Some(inner)) == tree_height(r) + 1);
                assert(is_balanced(Some(rotated)));
            }
            rotated
        } else {
            proof {
                assert(tree_height(ln.right) == tree_height(ln.left) + 1);
                assert(ln.right is Some);
                let lrn = ln.right->0;
                lemma_stored_height(lrn.left);
                lemma_stored_height(lrn.right);
            }
            let rotated = left_right_rotate(root);
            proof {
                let lrn = ln.right->0;
                let new_left = joined(ln.key, ln.value, ln.left, lrn.left);
                let new_right = joined(root.key, root.value, lrn.right, r);
                assert(rotated.left == Some(new_left));
                assert(rotated.right == Some(new_right));
                assert(is_balanced(Some(new_left)));
                assert(is_balanced(Some(new_right)));
                assert(tree_height(Some(new_left)) == tree_height(r) + 1);
                assert(tree_height(Some(new_right)) == tree_height(r) + 1);
                assert(is_balanced(Some(rotated)));
            }
            rotated
        }
    } else {
        let ghost rn = r->0;
        proof {
            assert(factor == -2);
            assert(r is Some);
            lemma_stored_height(rn.left);
            lemma_stored_height(rn.right);
        }
        let single: bool = match &root.right {
            Some(right) => key > right.key,
            None => false,
        };
        if single {
            let rotated = left_rotate(root);
            proof {
                let inner = joined(root.key, root.value, l, rn.left);
                assert(rotated.left == Some(inner));
                assert(tree_height(rn.right) == tree_height(rn.left) + 1);
                assert(is_balanced(Some(inner)));
                assert(tree_height(Some(inner)) == tree_height(l) + 1);
                assert(is_balanced(Some(rotated)));
            }
            rotated
        } else {
            proof {
                assert(tree_height(rn.left) == tree_height(rn.right) + 1);
                assert(rn.left is Some);
                let rln = rn.left->0;
                lemma_stored_height(rln.left);
                lemma_stored_height(rln.right);
            }
            let rotated = right_left_rotate(root);
            proof {
                let rln = rn.left->0;
                let new_left = joined(root.key, root.value, l, rln.left);
                let new_right = joined(rn.key, rn.value, rln.right, rn.right);
                assert(rotated.left == Some(new_left));
                assert(rotated.right == Some(new_right));
                assert(is_balanced(Some(new_left)));
                assert(is_balanced(Some(new_right)));
                assert(tree_height(Some(new_left)) == tree_height(l) + 1);
                assert(tree_height(Some(new_right)) == tree_height(l) + 1);
                assert(is_balanced(Some(rotated)));
            }
            rotated
        }
    }
}

/// Puts `value` under `key` in `root`; says whether the key is new.
fn insert_value(root: Option<Box<AVLTreeNode>>, key: i64, value: i64) -> (done: (
    Box<AVLTreeNode>,
    bool,
))
    requires
        is_avl(root),
        tree_height(root) <= u32::MAX - 1,
    ensures
        is_avl(Some(done.0)),
        entries_map(in_order(Some(done.0))) == entries_map(in_order(root)).insert(key, value),
        done.1 == !has_key(in_order(root), key),
        in_order(Some(done.0)).len() == in_order(root).len() + if done.1 {
            1int
        } else {
            0int
        },
        tree_height(Some(done.0)) == tree_height(root) || tree_height(Some(done.0)) == tree_height(
            root,
        ) + 1,
        tree_height(Some(done.0)) == tree_height(root) + 1 ==> leans_to(done.0, key),
    decreases root,
{
    match root {
        Some(node) => {
            let ghost left_before = in_order(node.left);
            let ghost right_before = in_order(node.right);
            let ghost all_before = in_order(root);
            let ghost mid = (node.key, node.value);
            proof {
                lemma_ascend_join(left_before, mid, right_before);
                lemma_stored_height(node.left);
                lemma_stored_height(node.right);
            }
            let mut node = node;
            if key == node.key {
                node.value = value;
                proof {
                    let after = in_order(Some(node));
                    lemma_ascend_join(left_before, (key, value), right_before);
                    assert forall|k: i64| #[trigger]
                        has_key(after, k) == entries_map(all_before).insert(
                            key,
                            value,
                        ).contains_key(k) by {
                        lemma_has_key_join(left_before, (key, value), right_before, k);
                        lemma_has_key_join(left_before, mid, right_before, k);
                    }
                    assert forall|k: i64| #[trigger] has_key(after, k) implies entries_map(after)[k]
                        == entries_map(all_before).insert(key, value)[k] by {
                        lemma_has_key_join(left_before, (key, value), right_before, k);
                        lemma_has_key_join(left_before, mid, right_before, k);
                        lemma_entry_join(left_before, (key, value), right_before, k);
                        if k != key {
                            lemma_entry_join(left_before, mid, right_before, k);
                        }
                    }
                    assert(entries_map(after) =~= entries_map(all_before).insert(key, value));
                    lemma_has_key_join(left_before, mid, right_before, key);
                }
                (node, false)
            } else if key < node.key {
                let left: Option<Box<AVLTreeNode>> = node.left.take();
                let (left_node, new_node) = insert_value(left, key, value);
                let ghost left_after = in_order(Some(left_node));
                proof {
                    lemma_stored_height(Some(left_node));
                }
                node.left = Some(left_node);
                node.update_height();
                proof {
                    assert forall|i: int| 0 <= i < left_after.len() implies (
                    #[trigger] left_after[i]).0 < mid.0 by {
                        lemma_entry_at(left_after, i);
                        let k = left_after[i].0;
                        assert(entries_map(left_before).insert(key, value).contains_key(k));
                        if k != key {
                            let j = index_of_key(left_before, k);
                            assert(left_before[j].0 < mid.0);
                        }
                    }
                    lemma_ascend_join(left_after, mid, right_before);
                    let after = in_order(Some(node));
                    assert forall|k: i64| #[trigger]
                        has_key(after, k) == entries_map(all_before).insert(
                            key,
                            value,
                        ).contains_key(k) by {
                        lemma_has_key_join(left_after, mid, right_before, k);
                        lemma_has_key_join(left_before, mid, right_before, k);
                        assert(has_key(left_after, k) == entries_map(left_before).insert(
                            key,
                            value,
                        ).contains_key(k));
                    }
                    assert forall|k: i64| #[trigger] has_key(after, k) implies entries_map(after)[k]
                        == entries_map(all_before).insert(key, value)[k] by {
                        lemma_has_key_join(left_after, mid, right_before, k);
                        lemma_has_key_join(left_before, mid, right_before, k);
                        lemma_entry_join(left_after, mid, right_before, k);
                        assert(has_key(left_after, k) == entries_map(left_before).insert(
                            key,
                            value,
                        ).contains_key(k));
                        if k != key {
                            lemma_entry_join(left_before, mid, right_before, k);
                        }
                        if has_key(left_after, k) {
                            assert(entries_map(left_after)[k] == entries_map(left_before).insert(
                                key,
                                value,
                            )[k]);
                        }
                    }
                    assert(entries_map(after) =~= entries_map(all_before).insert(key, value));
                    lemma_has_key_join(left_before, mid, right_before, key);
                    if has_key(right_before, key) {
                        let j = index_of_key(right_before, key);
                        assert(mid.0 < right_before[j].0);
                    }
                }
                let balanced = balance_avl_tree(node, key, Ghost(tree_height(root)));
                (balanced, new_node)
            } else {
                let right: Option<Box<AVLTreeNode>> = node.right.take();
                let (right_node, new_node) = insert_value(right, key, value);
                let ghost right_after = in_order(Some(right_node));
                proof {
                    lemma_stored_height(Some(right_node));
                }
                node.right = Some(right_node);
                node.update_height();
                proof {
                    assert forall|i: int| 0 <= i < right_after.len() implies mid.0 < (
                    #[trigger] right_after[i]).0 by {
                        lemma_entry_at(right_after, i);
                        let k = right_after[i].0;
                        assert(entries_map(right_before).insert(key, value).contains_key(k));
                        if k != key {
                            let j = index_of_key(right_before, k);
                            assert(mid.0 < right_before[j].0);
                        }
                    }
                    lemma_ascend_join(left_before, mid, right_after);
                    let after = in_order(Some(node));
                    assert forall|k: i64| #[trigger]
                        has_key(after, k) == entries_map(all_before).insert(
                            key,
                            value,
                        ).contains_key(k) by {
                        lemma_has_key_join(left_before, mid, right_after, k);
                        lemma_has_key_join(left_before, mid, right_before, k);
                        assert(has_key(right_after, k) == entries_map(right_before).insert(
                            key,
                            value,
                        ).contains_key(k));
                    }
                    assert forall|k: i64| #[trigger] has_key(after, k) implies entries_map(after)[k]
                        == entries_map(all_before).insert(key, value)[k] by {
                        lemma_has_key_join(left_before, mid, right_after, k);
                        lemma_has_key_join(left_before, mid, right_before, k);
                        lemma_entry_join(left_before, mid, right_after, k);
                        assert(has_key(right_after, k) == entries_map(right_before).insert(
                            key,
                            value,
                        ).contains_key(k));
                        if k != key {
                            lemma_entry_join(left_before, mid, right_before, k);
                        }
                        if has_key(right_after, k) {
                            assert(entries_map(right_after)[k] == entries_map(right_before).insert(
                                key,
                                value,
                            )[k]);
                        }
                    }
                    assert(entries_map(after) =~= entries_map(all_before).insert(key, value));
                    lemma_has_key_join(left_before, mid, right_before, key);
                    if has_key(left_before, key) {
                        let j = index_of_key(left_before, key);
                        assert(left_before[j].0 < mid.0);
                    }
                }
                let balanced = balance_avl_tree(node, key, Ghost(tree_height(root)));
                (balanced, new_node)
            }
        },
        None => {
            let node = Box::new(AVLTreeNode::new(key, value));
            proof {
                let after = in_order(Some(node));
                assert(after =~= seq![(key, value)]);
                assert(in_order(root) =~= Seq::<(i64, i64)>::empty());
                lemma_entry_at(after, 0);
                assert forall|k: i64| #[trigger]
                    has_key(after, k) == entries_map(in_order(root)).insert(
                        key,
                        value,
                    ).contains_key(k) by {
                    if has_key(after, k) {
                        let i = index_of_key(after, k);
                        assert(after[i].0 == key);
                    }
                }
                assert(entries_map(after) =~= entries_map(in_order(root)).insert(key, value));
            }
            (node, true)
        },
    }
}

/// The value under `key` in `root`, if the tree holds the key.
fn get_value(root: &Option<Box<AVLTreeNode>>, key: i64) -> (value: Option<i64>)
    requires
        keys_ascend(in_order(*root)),
    ensures
        value == if has_key(in_order(*root), key) {
            Some(entries_map(in_order(*root))[key])
        } else {
            None
        },
    decreases *root,
{
    match root {
        Some(node) => {
            proof {
                let mid = (node.key, node.value);
                lemma_ascend_join(in_order(node.left), mid, in_order(node.right));
                lemma_has_key_join(in_order(node.left), mid, in_order(node.right), key);
                if has_key(in_order(*root), key) {
                    lemma_entry_join(in_order(node.left), mid, in_order(node.right), key);
                }
                if has_key(in_order(node.left), key) {
                    let j = index_of_key(in_order(node.left), key);
                    assert(in_order(node.left)[j].0 < mid.0);
                }
                if has_key(in_order(node.right), key) {
                    let j = index_of_key(in_order(node.right), key);
                    assert(mid.0 < in_order(node.right)[j].0);
                }
            }
            if key < node.key {
                get_value(&node.left, key)
            } else if key > node.key {
                get_value(&node.right, key)
            } else {
                Some(node.value)
            }
        },
        None => None,
    }
}

/// Adds to `kv_hash` the records of `root` whose keys lie from `start` to
/// `end`, except under keys that `kv_hash` holds already.
fn scan_tree(
    root: &Option<Box<AVLTreeNode>>,
    start: i64,
    end: i64,
    kv_hash: &mut HashMap<i64, i64>,
)
    requires
        keys_ascend(in_order(*root)),
    ensures
        final(kv_hash)@ == merged(
            old(kv_hash)@,
            range_of(entries_map(in_order(*root)), start, end),
        ),
    decreases *root,
{
    if let Some(node) = root {
        let ghost left = in_order(node.left);
        let ghost right = in_order(node.right);
        let ghost mid = (node.key, node.value);
        proof {
            lemma_ascend_join(left, mid, right);
        }
        if start < node.key {
            scan_tree(&node.left, start, end, kv_hash);
        }
        let ghost after_left = kv_hash@;
        if start <= node.key && node.key <= end {
            insert_if_absent(kv_hash, node.key, node.value);
        }
        let ghost after_mid = kv_hash@;
        scan_tree(&node.right, start, end, kv_hash);
        proof {
            let all = in_order(*root);
            let want = merged(old(kv_hash)@, range_of(entries_map(all), start, end));
            assert forall|k: i64| #[trigger] kv_hash@.contains_key(k) == want.contains_key(k) by {
                lemma_has_key_join(left, mid, right, k);
                if has_key(left, k) {
                    let j = index_of_key(left, k);
                    assert(left[j].0 < mid.0);
                }
            }
            assert forall|k: i64| #[trigger] kv_hash@.contains_key(k) implies kv_hash@[k]
                == want[k] by {
                lemma_has_key_join(left, mid, right, k);
                if has_key(all, k) {
                    lemma_entry_join(left, mid, right, k);
                }
                if has_key(left, k) {
                    let j = index_of_key(left, k);
                    assert(left[j].0 < mid.0);
                }
                if has_key(right, k) {
                    let j = index_of_key(right, k);
                    assert(mid.0 < right[j].0);
                }
            }
            assert(kv_hash@ =~= want);
        }
    } else {
        assert(kv_hash@ =~= merged(
            old(kv_hash)@,
            range_of(entries_map(in_order(*root)), start, end),
        ));
    }
}

/// The records of `root` from left to right.
fn scan_all_tree(root: &Option<Box<AVLTreeNode>>) -> (records: Vec<(i64, i64)>)
    ensures
        records@ == in_order(*root),
    decreases *root,
{
    match root {
        None => Vec::new(),
        Some(node) => {
            let mut records: Vec<(i64, i64)> = scan_all_tree(&node.left);
            records.push((node.key, node.value));
            let mut rest: Vec<(i64, i64)> = scan_all_tree(&node.right);
            records.append(&mut rest);
            records
        },
    }
}

/// The write buffer: a height-balanced search tree and the number of its
/// records.
pub struct AVLTree {
    root: Option<Box<AVLTreeNode>>,
    size: u32,
}

impl View for AVLTree {
    type V = Map<i64, i64>;

    /// The tree as a map from key to value.
    closed spec fn view(&self) -> Map<i64, i64> {
        entries_map(in_order(self.root))
    }
}

impl AVLTree {
    #[verifier::type_invariant]
    spec fn well_formed(self) -> bool {
        is_avl(self.root) && self.size == in_order(self.root).len()
    }

    /// The records of the tree in ascending order of key.
    pub closed spec fn entries(&self) -> Seq<(i64, i64)> {
        in_order(self.root)
    }

    /// The number of records, as the tree counts them.
    pub closed spec fn spec_size(&self) -> u32 {
        self.size
    }

    /// An empty tree.
    pub fn new() -> (tree: Self)
        ensures
            tree@ == Map::<i64, i64>::empty(),
            tree.entries() == Seq::<(i64, i64)>::empty(),
            tree.spec_size() == 0,
    {
        let tree = AVLTree { root: None, size: 0 };
        assert(tree@ =~= Map::<i64, i64>::empty());
        tree
    }

    /// Puts `value` under `key`, in place of the value that the key had.
    pub fn put(&mut self, key: i64, value: i64)
        requires
            old(self)@.contains_key(key) || old(self).spec_size() < u32::MAX,
        ensures
            final(self)@ == old(self)@.insert(key, value),
            final(self).spec_size() == old(self).spec_size() + if old(self)@.contains_key(key) {
                0int
            } else {
                1int
            },
    {
        proof {
            use_type_invariant(&*self);
            lemma_height_bound(self.root);
        }
        let mut taken = AVLTree { root: None, size: 0 };
        std::mem::swap(self, &mut taken);
        let AVLTree { root, size } = taken;
        let (new_root, new_node) = insert_value(root, key, value);
        let new_size: u32 = if new_node {
            size + 1
        } else {
            size
        };
        *self = AVLTree { root: Some(new_root), size: new_size };
    }

    /// The value under `key`, if the tree holds the key.
    pub fn get(&self, key: i64) -> (value: Option<i64>)
        ensures
            value == if self@.contains_key(key) {
                Some(self@[key])
            } else {
                None
            },
    {
        proof {
            use_type_invariant(self);
        }
        get_value(&self.root, key)
    }

    /// Adds to `kv_hash` the records whose keys lie from `start` to `end`,
    /// both included, except under keys that `kv_hash` holds already.
    pub fn scan(&self, start: i64, end: i64, kv_hash: &mut HashMap<i64, i64>)
        ensures
            final(kv_hash)@ == merged(old(kv_hash)@, range_of(self@, start, end)),
    {
        proof {
            use_type_invariant(self);
        }
        scan_tree(&self.root, start, end, kv_hash);
    }

    /// All records, in strictly ascending order of key.
    pub fn scan_all(&self) -> (records: Vec<(i64, i64)>)
        ensures
            records@ == self.entries(),
            keys_ascend(records@),
            entries_map(records@) == self@,
            records@.len() == self.spec_size(),
    {
        proof {
            use_type_invariant(self);
        }
        scan_all_tree(&self.root)
    }

    /// The number of records.
    pub fn size(&self) -> (size: u32)
        ensures
            size == self.spec_size(),
            size == self.entries().len(),
            size == 0 ==> self@ == Map::<i64, i64>::empty(),
    {
        proof {
            use_type_invariant(self);
            if self.size == 0 {
                assert(self@ =~= Map::<i64, i64>::empty());
            }
        }
        self.size
    }
}

impl Default for AVLTree {
    /// An empty tree.
    fn default() -> (tree: Self)
        ensures
            tree@ == Map::<i64, i64>::empty(),
            tree.spec_size() == 0,
    {
        Self::new()
    }
}


/// After a put, a get of the same key returns the value that was put, and a
/// get of another key returns what it returned before.
pub proof fn lemma_put_then_get(before: Map<i64, i64>, key: i64, value: i64, other: i64)
    ensures
        before.insert(key, value).contains_key(key),
        before.insert(key, value)[key] == value,
        other != key ==> before.insert(key, value).contains_key(other) == before.contains_key(
            other,
        ),
        other != key && before.contains_key(other) ==> before.insert(key, value)[other]
            == before[other],
{
}

} // verus!
