//! A binary search tree: an unbalanced tree of distinct values in which every
//! value stands to the right of the smaller ones and to the left of the greater.

use crate::order::{comparable, follows, lemma_trichotomy, precedes, total_order};
use vstd::prelude::*;

verus! {

/// A node of the tree with the two subtrees that it owns.
pub struct TreeNode<T> where T: Ord {
    /// The value of the node.
    pub value: T,
    /// The subtree of the smaller values.
    pub left: Option<Box<TreeNode<T>>>,
    /// The subtree of the greater values.
    pub right: Option<Box<TreeNode<T>>>,
}

/// A binary search tree, empty or with a root.
pub struct BinarySearchTree<T> where T: Ord {
    /// The root of the tree.
    pub root: Option<Box<TreeNode<T>>>,
}

/// The values of the subtree behind `link`; none behind an empty link.
pub open spec fn values_of<T: Ord>(link: Option<Box<TreeNode<T>>>) -> Set<T>
    decreases link,
{
    match link {
        Some(node) => node.values(),
        None => Set::empty(),
    }
}

/// The subtree behind `link` is a search tree; an empty link always is.
pub open spec fn is_search_tree<T: Ord>(link: Option<Box<TreeNode<T>>>) -> bool
    decreases link,
{
    match link {
        Some(node) => node.is_search_tree(),
        None => true,
    }
}

/// The node that holds `value` and has no subtrees.
pub open spec fn leaf<T: Ord>(value: T) -> TreeNode<T> {
    TreeNode { value, left: None, right: None }
}

/// `node` with `value` put in as a leaf at the first empty place on its way down:
/// the way leads to the left where `value` precedes the value of a node and to
/// the right where it follows, and it ends without a change at a node whose
/// value does neither.
pub open spec fn with_value<T: Ord>(node: TreeNode<T>, value: T) -> TreeNode<T>
    decreases node,
{
    if precedes(value, node.value) {
        TreeNode {
            value: node.value,
            left: Some(
                Box::new(
                    match node.left {
                        Some(below) => with_value(*below, value),
                        None => leaf(value),
                    },
                ),
            ),
            right: node.right,
        }
    } else if follows(value, node.value) {
        TreeNode {
            value: node.value,
            left: node.left,
            right: Some(
                Box::new(
                    match node.right {
                        Some(below) => with_value(*below, value),
                        None => leaf(value),
                    },
                ),
            ),
        }
    } else {
        node
    }
}

/// The subtree behind `link` with `value` put in; behind an empty link the leaf
/// that holds `value`.
pub open spec fn grown<T: Ord>(link: Option<Box<TreeNode<T>>>, value: T) -> Option<
    Box<TreeNode<T>>,
> {
    Some(
        Box::new(
            match link {
                Some(node) => with_value(*node, value),
                None => leaf(value),
            },
        ),
    )
}

impl<T> TreeNode<T> where T: Ord {
    /// The values of the node and of its subtrees.
    pub open spec fn values(self) -> Set<T>
        decreases self,
    {
        values_of(self.left).union(values_of(self.right)).insert(self.value)
    }

    /// Every value of the left subtree precedes the value of the node, the value
    /// of the node precedes every value of the right subtree, and both subtrees
    /// are search trees.
    pub open spec fn is_search_tree(self) -> bool
        decreases self,
    {
        &&& forall|x: T| #[trigger] values_of(self.left).contains(x) ==> precedes(x, self.value)
        &&& forall|x: T| #[trigger] values_of(self.right).contains(x) ==> precedes(self.value, x)
        &&& is_search_tree(self.left)
        &&& is_search_tree(self.right)
    }

    /// A node without subtrees.
    pub fn new(value: T) -> (node: Self)
        ensures
            node == leaf(value),
            node.values() == Set::<T>::empty().insert(value),
            node.is_search_tree(),
    {
        let node = TreeNode { value, left: None, right: None };
        assert(node.values() =~= Set::<T>::empty().insert(value));
        node
    }

    /// Puts `value` into the tree below this node: to the left if it is smaller
    /// than the value of the node, to the right if it is greater, at the first
    /// empty place on its way. Nothing else of the tree changes, and a value that
    /// the tree holds changes nothing at all.
    pub fn insert(&mut self, value: T)
        requires
            old(self).is_search_tree(),
        ensures
            comparable::<T>() ==> *final(self) == with_value(*old(self), value),
            total_order::<T>() ==> final(self).is_search_tree(),
            total_order::<T>() ==> final(self).values() == old(self).values().insert(value),
            total_order::<T>() && old(self).values().contains(value) ==> *final(self) == *old(
                self,
            ),
            final(self).value == old(self).value,
        decreases *old(self),
    {
        if value < self.value {
            proof {
                if total_order::<T>() {
                    lemma_trichotomy(value, self.value);
                    if values_of(self.right).contains(value) {
                        lemma_trichotomy(self.value, value);
                    }
                }
            }
            match &mut self.left {
                Some(left_node) => {
                    left_node.insert(value);
                },
                None => {
                    self.left = Some(Box::new(TreeNode::new(value)));
                },
            }
            proof {
                if total_order::<T>() {
                    assert(values_of(self.left) =~= values_of(old(self).left).insert(value));
                    assert(self.values() =~= old(self).values().insert(value));
                }
            }
        } else if value > self.value {
            proof {
                if total_order::<T>() {
                    lemma_trichotomy(value, self.value);
                    if values_of(self.left).contains(value) {
                        lemma_trichotomy(self.value, value);
                    }
                }
            }
            match &mut self.right {
                Some(right_node) => {
                    right_node.insert(value);
                },
                None => {
                    self.right = Some(Box::new(TreeNode::new(value)));
                },
            }
            proof {
                if total_order::<T>() {
                    assert(values_of(self.right) =~= values_of(old(self).right).insert(value));
                    assert(self.values() =~= old(self).values().insert(value));
                }
            }
        } else {
            proof {
                if total_order::<T>() {
                    lemma_trichotomy(value, self.value);
                    assert(self.values() =~= old(self).values().insert(value));
                }
            }
        }
    }
}

impl<T> BinarySearchTree<T> where T: Ord {
    /// The values of the tree.
    pub open spec fn view(&self) -> Set<T> {
        values_of(self.root)
    }

    /// The tree is a search tree.
    pub open spec fn well_formed(&self) -> bool {
        is_search_tree(self.root)
    }

    /// The empty tree.
    pub fn new() -> (tree: Self)
        ensures
            tree.root is None,
            tree.well_formed(),
            tree@ == Set::<T>::empty(),
    {
        BinarySearchTree { root: None }
    }

    /// Puts `value` into the tree: as the root of an empty tree, and else as a
    /// leaf at the first empty place on its way down from the root. A value that
    /// the tree holds leaves the tree as it is, node for node.
    pub fn insert(&mut self, value: T)
        requires
            old(self).well_formed(),
        ensures
            comparable::<T>() ==> final(self).root == grown(old(self).root, value),
            total_order::<T>() ==> final(self).well_formed(),
            total_order::<T>() ==> final(self)@ == old(self)@.insert(value),
            total_order::<T>() && old(self)@.contains(value) ==> *final(self) == *old(self),
            final(self).root is Some,
    {
        match &mut self.root {
            Some(root_node) => {
                root_node.insert(value);
            },
            None => {
                self.root = Some(Box::new(TreeNode::new(value)));
            },
        }
        proof {
            if total_order::<T>() {
                assert(self@ =~= old(self)@.insert(value));
            }
        }
    }

    /// Whether the tree holds `value`: the search goes down from the root, to the
    /// left where `value` is smaller than the value of a node and to the right
    /// where it is greater.
    pub fn search(&self, value: T) -> (found: bool)
        requires
            self.well_formed(),
        ensures
            total_order::<T>() ==> found == self@.contains(value),
    {
        let mut current = &self.root;
        loop
            invariant
                is_search_tree(*current),
                total_order::<T>() ==> (self@.contains(value) <==> values_of(*current).contains(
                    value,
                )),
            decreases *current,
        {
            match current {
                None => {
                    return false;
                },
                Some(node) => {
                    proof {
                        if total_order::<T>() {
                            lemma_trichotomy(value, node.value);
                            if values_of(node.left).contains(value) {
                                lemma_trichotomy(node.value, value);
                            }
                            if values_of(node.right).contains(value) {
                                lemma_trichotomy(node.value, value);
                            }
                        }
                    }
                    if value < node.value {
                        current = &node.left;
                    } else if value > node.value {
                        current = &node.right;
                    } else {
                        return true;
                    }
                },
            }
        }
    }
}

} // verus!
