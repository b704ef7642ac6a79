//! One node of the height-balanced tree.

use vstd::prelude::*;

verus! {

/// A node: one record, the height of the subtree below it, two children.
pub struct AVLTreeNode {
    /// The key of the node.
    pub key: i64,
    /// The value of the node.
    pub value: i64,
    /// The height of the subtree rooted here; a leaf has height 1.
    pub height: u32,
    /// The subtree of smaller keys.
    pub left: Option<Box<AVLTreeNode>>,
    /// The subtree of greater keys.
    pub right: Option<Box<AVLTreeNode>>,
}

/// The height that the root of `tree` records; 0 for the empty tree.
pub open spec fn stored_height(tree: Option<Box<AVLTreeNode>>) -> u32 {
    match tree {
        Some(node) => node.height,
        None => 0,
    }
}

/// The height that the root of `tree` records; 0 for the empty tree.
fn height_of(tree: &Option<Box<AVLTreeNode>>) -> (h: u32)
    ensures
        h == stored_height(*tree),
{
    match tree {
        Some(node) => node.height,
        None => 0,
    }
}

impl AVLTreeNode {
    /// The balance factor as the node's children record it: the left height
    /// less the right height, cut to eight bits.
    pub open spec fn spec_balance_factor(&self) -> i8 {
        (stored_height(self.left) as i64 - stored_height(self.right) as i64) as i8
    }

    /// A leaf that holds `key` and `value`.
    pub fn new(key: i64, value: i64) -> (node: Self)
        ensures
            node == (AVLTreeNode { key, value, height: 1, left: None, right: None }),
    {
        AVLTreeNode { key, value, height: 1, left: None, right: None }
    }

    /// The height of the left child less that of the right child.
    pub fn balance_factor(&self) -> (factor: i8)
        ensures
            factor == self.spec_balance_factor(),
    {
        let left_height: u32 = height_of(&self.left);
        let right_height: u32 = height_of(&self.right);
        let difference: i64 = left_height as i64 - right_height as i64;
        #[verifier::truncate]
        (difference as i8)
    }

    /// Sets the height to one more than the greater of the children's heights.
    pub fn update_height(&mut self)
        requires
            stored_height(old(self).left) < u32::MAX,
            stored_height(old(self).right) < u32::MAX,
        ensures
            *final(self) == (AVLTreeNode {
                height: if stored_height(old(self).left) >= stored_height(old(self).right) {
                    (stored_height(old(self).left) + 1) as u32
                } else {
                    (stored_height(old(self).right) + 1) as u32
                },
                ..*old(self)
            }),
    {
        let left_height: u32 = height_of(&self.left);
        let right_height: u32 = height_of(&self.right);
        if left_height >= right_height {
            self.height = 1 + left_height;
        } else {
            self.height = 1 + right_height;
        }
    }
}

} // verus!
