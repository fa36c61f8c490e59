//! The balance engine: the two single rotations and the rebalancing step
//! that classifies a +-2 imbalance into the four rotation cases
//! (left-left, left-right, right-right, right-left) and restores the
//! balance invariant.

use vstd::prelude::*;

use crate::node::{
    heights_cached, joined_height, tree_height, tree_set, tree_size, wf_tree, AvlNode,
};

verus! {

/// A node whose subtrees are well formed, correctly ordered around its value
/// and of heights within one of each other, and whose cached height is
/// fresh, roots a well-formed subtree.
proof fn lemma_wf_assemble(b: Box<AvlNode>)
    requires
        wf_tree(b.left),
        wf_tree(b.right),
        forall|v: u64| tree_set(b.left).contains(v) ==> v < b.value,
        forall|v: u64| tree_set(b.right).contains(v) ==> b.value < v,
        tree_height(b.left) <= tree_height(b.right) + 1,
        tree_height(b.right) <= tree_height(b.left) + 1,
        b.height == joined_height(b.left, b.right),
    ensures
        wf_tree(Some(b)),
        tree_height(Some(b)) == joined_height(b.left, b.right),
        tree_set(Some(b)) == tree_set(b.left).union(tree_set(b.right)).insert(b.value),
        tree_size(Some(b)) == tree_size(b.left) + 1 + tree_size(b.right),
{
}

/// After a right rotation at a node whose left side outweighs the right by
/// two, the rotated-to subtree is well formed, holds exactly the same
/// values, and its height is the old height or one less.
proof fn lemma_rotate_right_restores(x: Box<AvlNode>, r: Box<AvlNode>)
    requires
        x.left.is_some(),
        wf_tree(x.left.unwrap().left),
        wf_tree(x.left.unwrap().right),
        wf_tree(x.right),
        forall|v: u64| #[trigger]
            tree_set(x.left.unwrap().left).contains(v) ==> v < x.left.unwrap().value,
        forall|v: u64| #[trigger]
            tree_set(x.left.unwrap().right).contains(v) ==> x.left.unwrap().value < v,
        forall|v: u64| #[trigger] tree_set(x.left).contains(v) ==> v < x.value,
        forall|v: u64| #[trigger] tree_set(x.right).contains(v) ==> x.value < v,
        tree_height(x.left.unwrap().left) == tree_height(x.right) + 1,
        tree_height(x.left.unwrap().right) <= tree_height(x.right) + 1,
        tree_height(x.right) <= tree_height(x.left.unwrap().right) + 1,
        r.value == x.left.unwrap().value,
        r.left == x.left.unwrap().left,
        r.right.is_some(),
        r.right.unwrap().value == x.value,
        r.right.unwrap().left == x.left.unwrap().right,
        r.right.unwrap().right == x.right,
        r.right.unwrap().height == joined_height(x.left.unwrap().right, x.right),
        r.height == joined_height(r.left, r.right),
    ensures
        wf_tree(Some(r)),
        tree_set(Some(r)) == tree_set(x.left).union(tree_set(x.right)).insert(x.value),
        tree_size(Some(r)) == tree_size(x.left) + 1 + tree_size(x.right),
        tree_height(x.right) + 2 <= tree_height(Some(r)),
        tree_height(Some(r)) <= tree_height(x.right) + 3,
{
    let l = x.left.unwrap();
    let d = r.right.unwrap();
    // The demoted node keeps the old root's value over the middle and right
    // subtrees; every middle value lies below it.
    assert forall|v: u64| tree_set(d.left).contains(v) implies v < d.value by {
        assert(tree_set(x.left).contains(v));
    }
    lemma_wf_assemble(d);
    // The promoted node's value sits below the old root's.
    assert(tree_set(x.left).contains(r.value));
    assert forall|v: u64| tree_set(r.right).contains(v) implies r.value < v by {
        assert(tree_set(r.right) == tree_set(d.left).union(tree_set(d.right)).insert(d.value));
        if tree_set(d.right).contains(v) {
            assert(x.value < v);
        }
    }
    lemma_wf_assemble(r);
    assert(tree_set(x.left) == tree_set(l.left).union(tree_set(l.right)).insert(l.value));
    assert(tree_set(Some(r)) =~= tree_set(x.left).union(tree_set(x.right)).insert(x.value));
    assert(tree_size(x.left) == tree_size(l.left) + 1 + tree_size(l.right));
}

/// After a left rotation at a node whose right side outweighs the left by
/// two: the mirror image of `lemma_rotate_right_restores`.
proof fn lemma_rotate_left_restores(x: Box<AvlNode>, r: Box<AvlNode>)
    requires
        x.right.is_some(),
        wf_tree(x.right.unwrap().left),
        wf_tree(x.right.unwrap().right),
        wf_tree(x.left),
        forall|v: u64| #[trigger]
            tree_set(x.right.unwrap().left).contains(v) ==> v < x.right.unwrap().value,
        forall|v: u64| #[trigger]
            tree_set(x.right.unwrap().right).contains(v) ==> x.right.unwrap().value < v,
        forall|v: u64| #[trigger] tree_set(x.left).contains(v) ==> v < x.value,
        forall|v: u64| #[trigger] tree_set(x.right).contains(v) ==> x.value < v,
        tree_height(x.right.unwrap().right) == tree_height(x.left) + 1,
        tree_height(x.right.unwrap().left) <= tree_height(x.left) + 1,
        tree_height(x.left) <= tree_height(x.right.unwrap().left) + 1,
        r.value == x.right.unwrap().value,
        r.right == x.right.unwrap().right,
        r.left.is_some(),
        r.left.unwrap().value == x.value,
        r.left.unwrap().right == x.right.unwrap().left,
        r.left.unwrap().left == x.left,
        r.left.unwrap().height == joined_height(x.left, x.right.unwrap().left),
        r.height == joined_height(r.left, r.right),
    ensures
        wf_tree(Some(r)),
        tree_set(Some(r)) == tree_set(x.left).union(tree_set(x.right)).insert(x.value),
        tree_size(Some(r)) == tree_size(x.left) + 1 + tree_size(x.right),
        tree_height(x.left) + 2 <= tree_height(Some(r)),
        tree_height(Some(r)) <= tree_height(x.left) + 3,
{
    let l = x.right.unwrap();
    let d = r.left.unwrap();
    assert forall|v: u64| tree_set(d.right).contains(v) implies d.value < v by {
        assert(tree_set(x.right).contains(v));
    }
    lemma_wf_assemble(d);
    assert(tree_set(x.right).contains(r.value));
    assert forall|v: u64| tree_set(r.left).contains(v) implies v < r.value by {
        assert(tree_set(r.left) == tree_set(d.left).union(tree_set(d.right)).insert(d.value));
        if tree_set(d.left).contains(v) {
            assert(v < x.value);
        }
    }
    lemma_wf_assemble(r);
    assert(tree_set(x.right) == tree_set(l.left).union(tree_set(l.right)).insert(l.value));
    assert(tree_set(Some(r)) =~= tree_set(x.left).union(tree_set(x.right)).insert(x.value));
    assert(tree_size(x.right) == tree_size(l.left) + 1 + tree_size(l.right));
}

/// Single right rotation: the left child becomes the new subtree root, the
/// old root becomes its right child, and the left child's former right
/// subtree becomes the old root's new left subtree. Heights are recomputed
/// bottom-up (the demoted node first, then the new root).
pub(crate) fn rotate_right(x: Box<AvlNode>) -> (r: Box<AvlNode>)
    requires
        x.left.is_some(),
        heights_cached(x.left),
        heights_cached(x.right),
        tree_height(x.right) < tree_height(x.left),
        joined_height(x.left, x.right) <= usize::MAX,
    ensures
        r.value == x.left.unwrap().value,
        r.left == x.left.unwrap().left,
        r.right.is_some(),
        r.right.unwrap().value == x.value,
        r.right.unwrap().left == x.left.unwrap().right,
        r.right.unwrap().right == x.right,
        r.right.unwrap().height == joined_height(x.left.unwrap().right, x.right),
        r.height == joined_height(r.left, r.right),
{
    let mut x = x;
    let mut y = x.left.take().unwrap();
    x.left = y.right.take();
    x.update_height();
    y.right = Some(x);
    y.update_height();
    y
}

/// Single left rotation: the mirror image of `rotate_right`.
pub(crate) fn rotate_left(x: Box<AvlNode>) -> (r: Box<AvlNode>)
    requires
        x.right.is_some(),
        heights_cached(x.left),
        heights_cached(x.right),
        tree_height(x.left) < tree_height(x.right),
        joined_height(x.left, x.right) <= usize::MAX,
    ensures
        r.value == x.right.unwrap().value,
        r.right == x.right.unwrap().right,
        r.left.is_some(),
        r.left.unwrap().value == x.value,
        r.left.unwrap().right == x.right.unwrap().left,
        r.left.unwrap().left == x.left,
        r.left.unwrap().height == joined_height(x.left, x.right.unwrap().left),
        r.height == joined_height(r.left, r.right),
{
    let mut x = x;
    let mut y = x.right.take().unwrap();
    x.right = y.left.take();
    x.update_height();
    y.left = Some(x);
    y.update_height();
    y
}

/// Restores the balance invariant at a node whose subtrees are each well
/// formed, correctly ordered around its value, and of heights within two of
/// each other, refreshing the node's cached height. The subtree keeps
/// exactly its values; its height shrinks by at most one, never grows, and
/// stays the same when the node was already balanced.
pub(crate) fn rebalance(node: Box<AvlNode>) -> (r: Box<AvlNode>)
    requires
        wf_tree(node.left),
        wf_tree(node.right),
        forall|v: u64| tree_set(node.left).contains(v) ==> v < node.value,
        forall|v: u64| tree_set(node.right).contains(v) ==> node.value < v,
        tree_height(node.left) <= tree_height(node.right) + 2,
        tree_height(node.right) <= tree_height(node.left) + 2,
        joined_height(node.left, node.right) <= usize::MAX,
    ensures
        wf_tree(Some(r)),
        tree_set(Some(r)) == tree_set(Some(node)),
        tree_size(Some(r)) == tree_size(Some(node)),
        tree_height(Some(r)) <= tree_height(Some(node)),
        tree_height(Some(node)) <= tree_height(Some(r)) + 1,
        (tree_height(node.left) <= tree_height(node.right) + 1 && tree_height(node.right)
            <= tree_height(node.left) + 1) ==> tree_height(Some(r)) == tree_height(Some(node)),
{
    let ghost onode = node;
    let mut node = node;
    let lh = node.left_height();
    let rh = node.right_height();
    if lh > rh + 1 {
        // Left-heavy by two; classify by the left child's balance factor.
        assert(node.left.is_some());
        let single = match &node.left {
            Some(l) => l.balance_factor() >= 0,
            None => true,
        };
        if single {
            // Left-Left: single right rotation at the node.
            let r = rotate_right(node);
            proof {
                lemma_rotate_right_restores(onode, r);
                assert(tree_set(Some(r)) =~= tree_set(Some(onode)));
            }
            r
        } else {
            // Left-Right: left rotation at the left child, then right
            // rotation at the node.
            let l = node.left.take().unwrap();
            let ghost gl = l;
            assert(l.right.is_some());
            let l2 = rotate_left(l);
            node.left = Some(l2);
            proof {
                let gb = gl.right.unwrap();
                assert(wf_tree(gl.left));
                assert(wf_tree(gl.right));
                assert(wf_tree(gb.left));
                assert(wf_tree(gb.right));
                // Every value moved under the inner node stays on the
                // correct side of the two pivot values.
                assert forall|v: u64| tree_set(l2.left.unwrap().left).contains(v) implies v
                    < l2.left.unwrap().value by {
                    assert(tree_set(onode.left).contains(v));
                }
                assert forall|v: u64| tree_set(l2.left.unwrap().right).contains(v) implies l2
                    .left.unwrap().value < v by {
                    assert(tree_set(gb.left).contains(v));
                    assert(tree_set(gl.right).contains(v));
                }
                lemma_wf_assemble(l2.left.unwrap());
                // Everything gathered under the promoted inner value lies
                // below it.
                assert(tree_set(gl.right).contains(gb.value));
                assert forall|v: u64| tree_set(l2.left).contains(v) implies v < l2.value by {
                    let inner = l2.left.unwrap();
                    assert(tree_set(l2.left) == tree_set(inner.left).union(
                        tree_set(inner.right),
                    ).insert(inner.value));
                    if tree_set(gb.left).contains(v) {
                        assert(tree_set(gl.right).contains(v));
                    }
                }
                assert(heights_cached(node.left));
                // The inner rotation keeps the left subtree's values.
                assert(tree_set(gl.right) == tree_set(gb.left).union(tree_set(gb.right)).insert(
                    gb.value,
                ));
                assert(tree_set(Some(l2)) =~= tree_set(onode.left));
                assert(tree_size(gl.right) == tree_size(gb.left) + 1 + tree_size(gb.right));
                assert(tree_size(Some(l2)) == tree_size(onode.left));
                assert(tree_height(Some(l2)) == tree_height(onode.left));
            }
            let r = rotate_right(node);
            proof {
                assert forall|v: u64| tree_set(node.left).contains(v) implies v
                    < node.value by {
                    assert(tree_set(onode.left).contains(v));
                }
                lemma_rotate_right_restores(node, r);
                assert(tree_set(Some(r)) =~= tree_set(Some(onode)));
            }
            r
        }
    } else if rh > lh + 1 {
        // Right-heavy by two; classify by the right child's balance factor.
        assert(node.right.is_some());
        let single = match &node.right {
            Some(right) => right.balance_factor() <= 0,
            None => true,
        };
        if single {
            // Right-Right: single left rotation at the node.
            let r = rotate_left(node);
            proof {
                lemma_rotate_left_restores(onode, r);
                assert(tree_set(Some(r)) =~= tree_set(Some(onode)));
            }
            r
        } else {
            // Right-Left: right rotation at the right child, then left
            // rotation at the node.
            let right = node.right.take().unwrap();
            let ghost gr = right;
            assert(right.left.is_some());
            let r2 = rotate_right(right);
            node.right = Some(r2);
            proof {
                let gb = gr.left.unwrap();
                assert(wf_tree(gr.right));
                assert(wf_tree(gr.left));
                assert(wf_tree(gb.left));
                assert(wf_tree(gb.right));
                assert forall|v: u64| tree_set(r2.right.unwrap().right).contains(v) implies r2
                    .right.unwrap().value < v by {
                    assert(tree_set(onode.right).contains(v));
                }
                assert forall|v: u64| tree_set(r2.right.unwrap().left).contains(v) implies v
                    < r2.right.unwrap().value by {
                    assert(tree_set(gb.right).contains(v));
                    assert(tree_set(gr.left).contains(v));
                }
                lemma_wf_assemble(r2.right.unwrap());
                // Everything gathered over the promoted inner value lies
                // above it.
                assert(tree_set(gr.left).contains(gb.value));
                assert forall|v: u64| tree_set(r2.right).contains(v) implies r2.value < v by {
                    let inner = r2.right.unwrap();
                    assert(tree_set(r2.right) == tree_set(inner.left).union(
                        tree_set(inner.right),
                    ).insert(inner.value));
                    if tree_set(gb.right).contains(v) {
                        assert(tree_set(gr.left).contains(v));
                    }
                }
                assert(heights_cached(node.right));
                assert(tree_set(gr.left) == tree_set(gb.left).union(tree_set(gb.right)).insert(
                    gb.value,
                ));
                assert(tree_set(Some(r2)) =~= tree_set(onode.right));
                assert(tree_size(gr.left) == tree_size(gb.left) + 1 + tree_size(gb.right));
                assert(tree_size(Some(r2)) == tree_size(onode.right));
                assert(tree_height(Some(r2)) == tree_height(onode.right));
            }
            let r = rotate_left(node);
            proof {
                assert forall|v: u64| tree_set(node.right).contains(v) implies node.value
                    < v by {
                    assert(tree_set(onode.right).contains(v));
                }
                lemma_rotate_left_restores(node, r);
                assert(tree_set(Some(r)) =~= tree_set(Some(onode)));
            }
            r
        }
    } else {
        node.update_height();
        proof {
            assert(tree_set(Some(node)) =~= tree_set(Some(onode)));
            assert(tree_size(Some(node)) == tree_size(Some(onode)));
            assert(tree_height(Some(node)) == tree_height(Some(onode)));
            assert(wf_tree(Some(node)));
        }
        node
    }
}

} // verus!
