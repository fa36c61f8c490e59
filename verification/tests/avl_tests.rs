use std::collections::BTreeSet;

use avltree::avl_set::AvlTreeSet;
use avltree::node::{AvlNode, AvlTree};

/// Recomputes a subtree's height while checking order bounds, the balance
/// invariant and the cached heights at every node; panics on any violation.
fn check_subtree(tree: &AvlTree, lo: Option<u64>, hi: Option<u64>) -> usize {
    match tree {
        None => 0,
        Some(n) => {
            if let Some(lo) = lo {
                assert!(lo < n.value, "order invariant broken below {lo}");
            }
            if let Some(hi) = hi {
                assert!(n.value < hi, "order invariant broken above {hi}");
            }
            let hl = check_subtree(&n.left, lo, Some(n.value));
            let hr = check_subtree(&n.right, Some(n.value), hi);
            let h = 1 + hl.max(hr);
            assert!(hl <= hr + 1 && hr <= hl + 1, "balance invariant broken at {}", n.value);
            assert_eq!(n.height, h, "stale height cache at {}", n.value);
            h
        }
    }
}

/// Checks every structural invariant of a set and that the cached length
/// matches what iteration produces.
fn check_invariants(set: &AvlTreeSet) {
    check_subtree(&set.root, None, None);
    let out = set.iter();
    assert_eq!(out.len(), set.len());
    for pair in out.windows(2) {
        assert!(pair[0] < pair[1], "iteration is not strictly ascending");
    }
}

#[test]
fn new_set_is_empty() {
    let set = AvlTreeSet::new();
    assert!(set.is_empty());
    assert_eq!(set.len(), 0);
    assert_eq!(set.iter(), Vec::<u64>::new());
    assert_eq!(set.root_value(), None);
}

#[test]
fn insert_descending_yields_ascending() {
    let mut set = AvlTreeSet::new();
    for v in [3u64, 2, 1] {
        assert!(set.insert(v));
        check_invariants(&set);
    }
    assert_eq!(set.iter(), vec![1u64, 2, 3]);
}

#[test]
fn duplicate_insert_is_a_no_op() {
    let mut set = AvlTreeSet::new();
    assert!(set.insert(1));
    assert!(!set.insert(1));
    assert_eq!(set.len(), 1);
    assert_eq!(set.iter(), vec![1u64]);
}

#[test]
fn ascending_inserts_force_rebalancing() {
    let mut set = AvlTreeSet::new();
    for v in 1u64..=7 {
        assert!(set.insert(v));
        check_invariants(&set);
    }
    assert_eq!(set.height(), 3);
    assert_eq!(set.root_value(), Some(4));
    assert_eq!(set.iter(), vec![1u64, 2, 3, 4, 5, 6, 7]);
}

#[test]
fn remove_absent_returns_false_and_changes_nothing() {
    let mut set = AvlTreeSet::from_sequence(&vec![1u64, 2, 3]);
    assert!(!set.remove(99));
    assert_eq!(set.iter(), vec![1u64, 2, 3]);
    assert_eq!(set.len(), 3);
    check_invariants(&set);
}

#[test]
fn remove_rebalances_and_keeps_order() {
    let mut set = AvlTreeSet::from_sequence(&vec![5u64, 3, 8, 1, 4, 7, 9]);
    check_invariants(&set);
    assert!(set.remove(3));
    check_invariants(&set);
    assert_eq!(set.iter(), vec![1u64, 4, 5, 7, 8, 9]);
}

#[test]
fn remove_leaf_one_child_and_two_children() {
    let mut set = AvlTreeSet::from_sequence(&vec![8u64, 4, 12, 2, 6, 10, 14, 1, 5, 7]);
    check_invariants(&set);
    // leaf
    assert!(set.remove(1));
    check_invariants(&set);
    // one child
    assert!(set.remove(2));
    check_invariants(&set);
    // two children: the in-order predecessor takes the node's place
    assert!(set.remove(8));
    check_invariants(&set);
    assert_eq!(set.iter(), vec![4u64, 5, 6, 7, 10, 12, 14]);
    assert!(!set.contains(8));
    assert!(set.contains(7));
}

#[test]
fn from_sequence_sorts_and_deduplicates() {
    let set = AvlTreeSet::from_sequence(&vec![5u64, 1, 5, 2, 1, 9, 2]);
    assert_eq!(set.iter(), vec![1u64, 2, 5, 9]);
    assert_eq!(set.len(), 4);
    check_invariants(&set);
}

#[test]
fn iteration_is_restartable_and_read_only() {
    let set = AvlTreeSet::from_sequence(&vec![4u64, 2, 6, 1, 3]);
    let first = set.iter();
    let second = set.iter();
    assert_eq!(first, second);
    assert_eq!(first, vec![1u64, 2, 3, 4, 6]);
    check_invariants(&set);
}

#[test]
fn contains_matches_membership() {
    let set = AvlTreeSet::from_sequence(&vec![10u64, 20, 30]);
    assert!(set.contains(10));
    assert!(set.contains(20));
    assert!(set.contains(30));
    assert!(!set.contains(15));
    assert!(!set.contains(0));
}

#[test]
fn iterator_parity() {
    // Iteration order must match the reference ordered set.
    let xs: Vec<u64> = vec![12, 3, 44, 3, 97, 12, 0, 5, 81, 44, 7, 19, 63, 5];
    let mut avl_set = AvlTreeSet::new();
    let mut btree_set = BTreeSet::new();
    for &x in &xs {
        avl_set.insert(x);
        btree_set.insert(x);
    }
    let avl: Vec<u64> = avl_set.iter();
    let btree: Vec<u64> = btree_set.iter().cloned().collect();
    assert_eq!(avl, btree);
}

#[test]
fn insert_parity() {
    // insert's return value must match the reference ordered set's.
    let base: Vec<u64> = vec![1, 2, 9, 40, 77];
    let mut avl_set = AvlTreeSet::from_sequence(&base);
    let mut btree_set: BTreeSet<u64> = base.iter().cloned().collect();
    for x in [9u64, 13, 77, 0, 13] {
        assert_eq!(avl_set.insert(x), btree_set.insert(x));
    }
}

#[test]
fn mixed_operations_cross_check() {
    // A deterministic pseudo-random stream of inserts and removes, checked
    // against the standard library's ordered set at every step.
    let mut avl_set = AvlTreeSet::new();
    let mut btree_set = BTreeSet::new();
    let mut state: u64 = 0x2545F4914F6CDD1D;
    for step in 0..2000u64 {
        state = state.wrapping_mul(6364136223846793005).wrapping_add(1442695040888963407);
        let value = (state >> 33) % 128;
        if (state >> 1) % 3 == 0 {
            assert_eq!(avl_set.remove(value), btree_set.remove(&value));
        } else {
            assert_eq!(avl_set.insert(value), btree_set.insert(value));
        }
        assert_eq!(avl_set.len(), btree_set.len());
        if step % 100 == 0 {
            check_invariants(&avl_set);
            let avl: Vec<u64> = avl_set.iter();
            let btree: Vec<u64> = btree_set.iter().cloned().collect();
            assert_eq!(avl, btree);
        }
    }
    let avl: Vec<u64> = avl_set.iter();
    let btree: Vec<u64> = btree_set.iter().cloned().collect();
    assert_eq!(avl, btree);
}

#[test]
fn bulk_ascending_insert_then_remove_all() {
    let mut set = AvlTreeSet::new();
    for v in 0u64..10_000 {
        assert!(set.insert(v));
        if v % 1000 == 0 {
            check_invariants(&set);
        }
    }
    assert_eq!(set.len(), 10_000);
    check_invariants(&set);
    for v in 0u64..10_000 {
        assert!(set.remove(v));
        if v % 1000 == 0 {
            check_invariants(&set);
        }
    }
    assert!(set.is_empty());
    assert_eq!(set.len(), 0);
    assert_eq!(set.iter(), Vec::<u64>::new());
}

#[test]
fn node_height_accounting() {
    let set = AvlTreeSet::from_sequence(&vec![2u64, 1, 3]);
    let root: &AvlNode = set.root.as_ref().expect("nonempty set has a root");
    assert_eq!(root.value, 2);
    assert_eq!(root.left_height(), 1);
    assert_eq!(root.right_height(), 1);
    assert_eq!(root.height(), 2);
    assert_eq!(root.balance_factor(), 0);
    assert_eq!(set.height(), 2);
}

#[test]
fn balance_factor_signs() {
    // Two values lean the root by one to the side that was filled.
    let left_leaning = AvlTreeSet::from_sequence(&vec![2u64, 1]);
    assert_eq!(left_leaning.root.as_ref().unwrap().balance_factor(), 1);
    let right_leaning = AvlTreeSet::from_sequence(&vec![1u64, 2]);
    assert_eq!(right_leaning.root.as_ref().unwrap().balance_factor(), -1);
}
