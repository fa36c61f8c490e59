//! The insert and delete paths over owned subtrees, plus the read-only
//! membership test and in-order collection. Each mutating function descends
//! by comparison, edits the bottom of the path, and rebalances on the way
//! back up, so every ancestor is checked (deletion can require a rotation at
//! more than one level).

use vstd::assert_sets_equal;
use vstd::prelude::*;

use crate::balance::rebalance;
use crate::laws::lemma_height_le_size;
use crate::node::{
    in_order, joined_height, tree_height, tree_set, tree_size, wf_tree, AvlNode, AvlTree,
};

verus! {

/// Inserts a value into a well-formed subtree, rebalancing on the way back
/// up; returns whether the value was new. A present value is left alone
/// (set semantics); the subtree's height grows by at most one.
pub(crate) fn insert_into(tree: &mut AvlTree, value: u64) -> (inserted: bool)
    requires
        wf_tree(*old(tree)),
        tree_size(*old(tree)) < usize::MAX,
    ensures
        wf_tree(*final(tree)),
        tree_set(*final(tree)) == tree_set(*old(tree)).insert(value),
        inserted == !tree_set(*old(tree)).contains(value),
        tree_size(*final(tree)) == tree_size(*old(tree)) + (if inserted {
            1int
        } else {
            0int
        }),
        tree_height(*old(tree)) <= tree_height(*final(tree)),
        tree_height(*final(tree)) <= tree_height(*old(tree)) + 1,
        !inserted ==> *final(tree) == *old(tree),
    decreases *old(tree),
{
    match tree.take() {
        None => {
            *tree = Some(Box::new(AvlNode { value, left: None, right: None, height: 1 }));
            proof {
                assert(tree_set(*tree) =~= tree_set(*old(tree)).insert(value));
            }
            true
        },
        Some(mut node) => {
            let ghost onode = node;
            if value == node.value {
                *tree = Some(node);
                proof {
                    assert(tree_set(*tree).contains(value));
                    assert(tree_set(*tree) =~= tree_set(*old(tree)).insert(value));
                }
                false
            } else if value < node.value {
                let inserted = insert_into(&mut node.left, value);
                proof {
                    if tree_set(onode.right).contains(value) {
                        assert(onode.value < value);
                    }
                }
                if inserted {
                    proof {
                        lemma_height_le_size(node.left);
                        lemma_height_le_size(node.right);
                        assert forall|v: u64| tree_set(node.left).contains(v) implies v
                            < node.value by {
                            if v != value {
                                assert(tree_set(onode.left).contains(v));
                            }
                        }
                    }
                    let newn = rebalance(node);
                    *tree = Some(newn);
                    proof {
                        assert(tree_set(*tree) =~= tree_set(*old(tree)).insert(value));
                    }
                } else {
                    *tree = Some(node);
                    proof {
                        assert(tree_set(onode.left).contains(value));
                        assert(tree_set(*tree).contains(value));
                        assert(tree_set(*tree) =~= tree_set(*old(tree)).insert(value));
                    }
                }
                inserted
            } else {
                let inserted = insert_into(&mut node.right, value);
                proof {
                    if tree_set(onode.left).contains(value) {
                        assert(value < onode.value);
                    }
                }
                if inserted {
                    proof {
                        lemma_height_le_size(node.left);
                        lemma_height_le_size(node.right);
                        assert forall|v: u64| tree_set(node.right).contains(v) implies node.value
                            < v by {
                            if v != value {
                                assert(tree_set(onode.right).contains(v));
                            }
                        }
                    }
                    let newn = rebalance(node);
                    *tree = Some(newn);
                    proof {
                        assert(tree_set(*tree) =~= tree_set(*old(tree)).insert(value));
                    }
                } else {
                    *tree = Some(node);
                    proof {
                        assert(tree_set(onode.right).contains(value));
                        assert(tree_set(*tree).contains(value));
                        assert(tree_set(*tree) =~= tree_set(*old(tree)).insert(value));
                    }
                }
                inserted
            }
        },
    }
}

/// Detaches the greatest value of a nonempty well-formed subtree - the
/// in-order predecessor used by two-children deletion - rebalancing on the
/// way back up. The subtree's height shrinks by at most one.
pub(crate) fn remove_max_from(tree: &mut AvlTree) -> (max: u64)
    requires
        old(tree).is_some(),
        wf_tree(*old(tree)),
    ensures
        wf_tree(*final(tree)),
        tree_set(*old(tree)).contains(max),
        forall|v: u64| tree_set(*old(tree)).contains(v) ==> v <= max,
        tree_set(*final(tree)) == tree_set(*old(tree)).remove(max),
        tree_size(*final(tree)) + 1 == tree_size(*old(tree)),
        tree_height(*final(tree)) <= tree_height(*old(tree)),
        tree_height(*old(tree)) <= tree_height(*final(tree)) + 1,
    decreases *old(tree),
{
    let mut node = tree.take().unwrap();
    let ghost onode = node;
    if node.right.is_none() {
        let max = node.value;
        *tree = node.left;
        proof {
            assert(tree_set(onode.right) =~= Set::<u64>::empty());
            assert_sets_equal!(tree_set(*tree) == tree_set(*old(tree)).remove(max), v => {
                if tree_set(onode.left).contains(v) {
                    assert(tree_set(old(tree).unwrap().left).contains(v));
                    assert(v < onode.value);
                }
            });
        }
        max
    } else {
        let max = remove_max_from(&mut node.right);
        proof {
            assert(joined_height(node.left, node.right) <= joined_height(
                onode.left,
                onode.right,
            ));
            assert(tree_set(onode.right).contains(max));
            assert(onode.value < max);
            assert forall|v: u64| tree_set(node.right).contains(v) implies node.value < v by {
                assert(tree_set(onode.right).contains(v));
            }
        }
        let ghost mnode = node;
        let newn = rebalance(node);
        *tree = Some(newn);
        proof {
            assert forall|v: u64| tree_set(*old(tree)).contains(v) implies v <= max by {
                if tree_set(onode.left).contains(v) {
                    assert(v < onode.value);
                }
            }
            assert_sets_equal!(tree_set(*tree) == tree_set(*old(tree)).remove(max), v => {
                assert(tree_set(Some(mnode)) == tree_set(mnode.left).union(
                    tree_set(mnode.right),
                ).insert(mnode.value));
                if tree_set(onode.left).contains(v) {
                    assert(v < onode.value);
                }
            });
        }
        max
    }
}

/// Removes a value from a well-formed subtree, rebalancing on the way back
/// up; returns whether the value was present. An absent value leaves the
/// subtree untouched; the subtree's height shrinks by at most one. A node
/// with two children takes its in-order predecessor's value and the
/// predecessor node is detached instead.
#[verifier::rlimit(50)]
pub(crate) fn remove_from(tree: &mut AvlTree, value: u64) -> (removed: bool)
    requires
        wf_tree(*old(tree)),
    ensures
        wf_tree(*final(tree)),
        tree_set(*final(tree)) == tree_set(*old(tree)).remove(value),
        removed == tree_set(*old(tree)).contains(value),
        tree_size(*final(tree)) + (if removed {
            1int
        } else {
            0int
        }) == tree_size(*old(tree)),
        tree_height(*final(tree)) <= tree_height(*old(tree)),
        tree_height(*old(tree)) <= tree_height(*final(tree)) + 1,
        !removed ==> *final(tree) == *old(tree),
    decreases *old(tree),
{
    match tree.take() {
        None => {
            *tree = None;
            proof {
                assert(tree_set(*tree) =~= tree_set(*old(tree)).remove(value));
            }
            false
        },
        Some(mut node) => {
            let ghost onode = node;
            if value < node.value {
                let removed = remove_from(&mut node.left, value);
                proof {
                    if tree_set(onode.right).contains(value) {
                        assert(onode.value < value);
                    }
                }
                if removed {
                    proof {
                        assert(joined_height(node.left, node.right) <= joined_height(
                            onode.left,
                            onode.right,
                        ));
                        assert forall|v: u64| tree_set(node.left).contains(v) implies v
                            < node.value by {
                            assert(tree_set(onode.left).contains(v));
                        }
                    }
                    let ghost mnode = node;
                    let newn = rebalance(node);
                    *tree = Some(newn);
                    proof {
                        assert_sets_equal!(
                            tree_set(*tree) == tree_set(*old(tree)).remove(value), v => {
                            assert(tree_set(Some(mnode)) == tree_set(mnode.left).union(
                                tree_set(mnode.right),
                            ).insert(mnode.value));
                            if tree_set(onode.right).contains(v) {
                                assert(onode.value < v);
                            }
                        });
                    }
                } else {
                    *tree = Some(node);
                    proof {
                        assert(tree_set(*tree) =~= tree_set(*old(tree)).remove(value));
                    }
                }
                removed
            } else if value > node.value {
                let removed = remove_from(&mut node.right, value);
                proof {
                    if tree_set(onode.left).contains(value) {
                        assert(value < onode.value);
                    }
                }
                if removed {
                    proof {
                        assert(joined_height(node.left, node.right) <= joined_height(
                            onode.left,
                            onode.right,
                        ));
                        assert forall|v: u64| tree_set(node.right).contains(v) implies node.value
                            < v by {
                            assert(tree_set(onode.right).contains(v));
                        }
                    }
                    let ghost mnode = node;
                    let newn = rebalance(node);
                    *tree = Some(newn);
                    proof {
                        assert_sets_equal!(
                            tree_set(*tree) == tree_set(*old(tree)).remove(value), v => {
                            assert(tree_set(Some(mnode)) == tree_set(mnode.left).union(
                                tree_set(mnode.right),
                            ).insert(mnode.value));
                            if tree_set(onode.left).contains(v) {
                                assert(v < onode.value);
                            }
                        });
                    }
                } else {
                    *tree = Some(node);
                    proof {
                        assert(tree_set(*tree) =~= tree_set(*old(tree)).remove(value));
                    }
                }
                removed
            } else {
                // The node to detach. Leaf and one-child cases splice the
                // other subtree in; two children take the predecessor.
                if node.left.is_none() {
                    *tree = node.right;
                    proof {
                        assert(*tree == onode.right);
                        assert(tree_set(*old(tree)) == tree_set(onode.left).union(
                            tree_set(onode.right),
                        ).insert(onode.value));
                        assert(tree_set(onode.left) =~= Set::<u64>::empty());
                        assert_sets_equal!(
                            tree_set(*tree) == tree_set(*old(tree)).remove(value), v => {
                            if tree_set(onode.right).contains(v) {
                                assert(onode.value < v);
                            }
                        });
                        assert(tree_size(*old(tree)) == tree_size(onode.left) + 1 + tree_size(
                            onode.right,
                        ));
                        assert(tree_size(*tree) + 1 == tree_size(*old(tree)));
                    }
                    true
                } else if node.right.is_none() {
                    *tree = node.left;
                    proof {
                        assert(*tree == onode.left);
                        assert(tree_set(*old(tree)) == tree_set(onode.left).union(
                            tree_set(onode.right),
                        ).insert(onode.value));
                        assert(tree_set(onode.right) =~= Set::<u64>::empty());
                        assert_sets_equal!(
                            tree_set(*tree) == tree_set(*old(tree)).remove(value), v => {
                            if tree_set(onode.left).contains(v) {
                                assert(v < onode.value);
                            }
                        });
                        assert(tree_size(*old(tree)) == tree_size(onode.left) + 1 + tree_size(
                            onode.right,
                        ));
                        assert(tree_size(*tree) + 1 == tree_size(*old(tree)));
                    }
                    true
                } else {
                    let pred = remove_max_from(&mut node.left);
                    node.value = pred;
                    proof {
                        assert(joined_height(node.left, node.right) <= joined_height(
                            onode.left,
                            onode.right,
                        ));
                        assert(tree_set(onode.left).contains(pred));
                        assert(pred < onode.value);
                        assert forall|v: u64| tree_set(node.left).contains(v) implies v
                            < node.value by {
                            assert(tree_set(onode.left).contains(v));
                        }
                        assert forall|v: u64| tree_set(node.right).contains(v) implies node.value
                            < v by {
                            assert(onode.value < v);
                        }
                    }
                    let ghost mnode = node;
                    let newn = rebalance(node);
                    *tree = Some(newn);
                    proof {
                        assert_sets_equal!(
                            tree_set(*tree) == tree_set(*old(tree)).remove(value), v => {
                            assert(tree_set(Some(mnode)) == tree_set(mnode.left).union(
                                tree_set(mnode.right),
                            ).insert(mnode.value));
                            if tree_set(onode.left).contains(v) {
                                assert(v < onode.value);
                            }
                            if tree_set(onode.right).contains(v) {
                                assert(onode.value < v);
                            }
                        });
                    }
                    true
                }
            }
        },
    }
}

/// Membership test: descends by comparison without touching the tree.
pub(crate) fn contains_in(tree: &AvlTree, value: u64) -> (found: bool)
    requires
        wf_tree(*tree),
    ensures
        found == tree_set(*tree).contains(value),
    decreases *tree,
{
    match tree {
        None => false,
        Some(n) => {
            if value == n.value {
                true
            } else if value < n.value {
                proof {
                    if tree_set(n.right).contains(value) {
                        assert(n.value < value);
                    }
                }
                contains_in(&n.left, value)
            } else {
                proof {
                    if tree_set(n.left).contains(value) {
                        assert(value < n.value);
                    }
                }
                contains_in(&n.right, value)
            }
        },
    }
}

/// Appends a subtree's values to `out` in ascending (in-order) sequence,
/// left subtree first, then the node, then the right subtree.
pub(crate) fn collect_in_order(tree: &AvlTree, out: &mut Vec<u64>)
    ensures
        final(out)@ == old(out)@ + in_order(*tree),
    decreases *tree,
{
    match tree {
        None => {
            proof {
                assert(out@ =~= old(out)@ + in_order(*tree));
            }
        },
        Some(n) => {
            collect_in_order(&n.left, out);
            out.push(n.value);
            collect_in_order(&n.right, out);
            proof {
                assert(out@ =~= old(out)@ + in_order(*tree));
            }
        },
    }
}

} // verus!
