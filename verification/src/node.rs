//! The tree vertex and its height bookkeeping, together with the
//! specification-level view of a subtree: its height, its set of values,
//! its in-order sequence, and the three structural invariants (search-tree
//! order, balance, and height-cache correctness).

use vstd::prelude::*;

verus! {

/// A subtree: absent, or an exclusively owned node.
pub type AvlTree = Option<Box<AvlNode>>;

/// A single tree vertex holding a value, the two owned subtrees, and a
/// cached height (the height of the subtree rooted here).
pub struct AvlNode {
    pub value: u64,
    pub left: AvlTree,
    pub right: AvlTree,
    pub height: usize,
}

/// The height of a subtree: 0 when absent, otherwise one more than the
/// taller child's height.
pub open spec fn tree_height(t: AvlTree) -> nat
    decreases t,
{
    match t {
        None => 0,
        Some(n) => {
            let hl = tree_height(n.left);
            let hr = tree_height(n.right);
            if hl >= hr {
                hl + 1
            } else {
                hr + 1
            }
        },
    }
}

/// The height a node has when its children are the two given subtrees.
pub open spec fn joined_height(l: AvlTree, r: AvlTree) -> nat {
    if tree_height(l) >= tree_height(r) {
        tree_height(l) + 1
    } else {
        tree_height(r) + 1
    }
}

/// The set of values stored in a subtree.
pub open spec fn tree_set(t: AvlTree) -> Set<u64>
    decreases t,
{
    match t {
        None => Set::empty(),
        Some(n) => tree_set(n.left).union(tree_set(n.right)).insert(n.value),
    }
}

/// The number of nodes in a subtree.
pub open spec fn tree_size(t: AvlTree) -> nat
    decreases t,
{
    match t {
        None => 0,
        Some(n) => tree_size(n.left) + 1 + tree_size(n.right),
    }
}

/// The in-order sequence of a subtree: left subtree, then the node's own
/// value, then the right subtree.
pub open spec fn in_order(t: AvlTree) -> Seq<u64>
    decreases t,
{
    match t {
        None => Seq::empty(),
        Some(n) => in_order(n.left) + seq![n.value] + in_order(n.right),
    }
}

/// Order invariant: at every node, every value in the left subtree is less
/// than the node's value, and every value in the right subtree is greater.
pub open spec fn is_bst(t: AvlTree) -> bool
    decreases t,
{
    match t {
        None => true,
        Some(n) => {
            &&& is_bst(n.left)
            &&& is_bst(n.right)
            &&& (forall|v: u64| tree_set(n.left).contains(v) ==> v < n.value)
            &&& (forall|v: u64| tree_set(n.right).contains(v) ==> n.value < v)
        },
    }
}

/// Balance invariant: at every node, the heights of the two subtrees differ
/// by at most one.
pub open spec fn balanced(t: AvlTree) -> bool
    decreases t,
{
    match t {
        None => true,
        Some(n) => {
            &&& balanced(n.left)
            &&& balanced(n.right)
            &&& tree_height(n.left) <= tree_height(n.right) + 1
            &&& tree_height(n.right) <= tree_height(n.left) + 1
        },
    }
}

/// Height-cache correctness: at every node, the stored `height` field equals
/// the recursively defined height of the subtree rooted there.
pub open spec fn heights_cached(t: AvlTree) -> bool
    decreases t,
{
    match t {
        None => true,
        Some(n) => {
            &&& heights_cached(n.left)
            &&& heights_cached(n.right)
            &&& n.height == joined_height(n.left, n.right)
        },
    }
}

/// Well-formedness of a subtree: all three structural invariants at once.
pub open spec fn wf_tree(t: AvlTree) -> bool {
    is_bst(t) && balanced(t) && heights_cached(t)
}

impl AvlNode {
    /// The cached height of the left subtree, or 0 when it is absent.
    pub fn left_height(&self) -> (h: usize)
        requires
            heights_cached(self.left),
        ensures
            h == tree_height(self.left),
    {
        match &self.left {
            None => 0,
            Some(n) => n.height,
        }
    }

    /// The cached height of the right subtree, or 0 when it is absent.
    pub fn right_height(&self) -> (h: usize)
        requires
            heights_cached(self.right),
        ensures
            h == tree_height(self.right),
    {
        match &self.right {
            None => 0,
            Some(n) => n.height,
        }
    }

    /// The height of the subtree rooted at this node, recomputed from the
    /// children's cached heights in O(1).
    pub fn height(&self) -> (h: usize)
        requires
            heights_cached(self.left),
            heights_cached(self.right),
            joined_height(self.left, self.right) <= usize::MAX,
        ensures
            h == joined_height(self.left, self.right),
    {
        let hl = self.left_height();
        let hr = self.right_height();
        if hl >= hr {
            hl + 1
        } else {
            hr + 1
        }
    }

    /// Refreshes this node's cached height from its children's cached
    /// heights; must be called bottom-up after any structural change below.
    pub fn update_height(&mut self)
        requires
            heights_cached(old(self).left),
            heights_cached(old(self).right),
            joined_height(old(self).left, old(self).right) <= usize::MAX,
        ensures
            final(self).value == old(self).value,
            final(self).left == old(self).left,
            final(self).right == old(self).right,
            final(self).height == joined_height(old(self).left, old(self).right),
    {
        self.height = self.height();
    }

    /// The balance factor: left subtree height minus right subtree height.
    /// The rebalancing discipline keeps it in {-2, ..., 2}, values of +-2
    /// being transient, observed only just before a rotation.
    pub fn balance_factor(&self) -> (b: i8)
        requires
            heights_cached(self.left),
            heights_cached(self.right),
            tree_height(self.left) <= tree_height(self.right) + 2,
            tree_height(self.right) <= tree_height(self.left) + 2,
        ensures
            b as int == tree_height(self.left) - tree_height(self.right),
    {
        let left_height = self.left_height();
        let right_height = self.right_height();
        if left_height >= right_height {
            (left_height - right_height) as i8
        } else {
            -((right_height - left_height) as i8)
        }
    }
}

} // verus!
