//! General statements about well-formed trees, proved once and used by the
//! operations and by callers: a tree's height never exceeds its node count;
//! the in-order sequence of a well-formed tree is strictly ascending and
//! holds exactly the tree's values; and a strictly ascending sequence is
//! determined by its value set, which makes in-order enumeration a
//! round-trip of construction.

use vstd::prelude::*;

use crate::node::{balanced, in_order, is_bst, tree_height, tree_set, tree_size, wf_tree, AvlTree};

verus! {

/// A sequence in strictly ascending order.
pub open spec fn sorted_strict(s: Seq<u64>) -> bool {
    forall|i: int, j: int| 0 <= i < j < s.len() ==> s[i] < s[j]
}

/// A subtree is never taller than its node count.
pub proof fn lemma_height_le_size(t: AvlTree)
    ensures
        tree_height(t) <= tree_size(t),
    decreases t,
{
    match t {
        None => {},
        Some(n) => {
            lemma_height_le_size(n.left);
            lemma_height_le_size(n.right);
        },
    }
}

/// The in-order sequence enumerates every node exactly once.
pub proof fn lemma_in_order_len(t: AvlTree)
    ensures
        in_order(t).len() == tree_size(t),
    decreases t,
{
    match t {
        None => {},
        Some(n) => {
            lemma_in_order_len(n.left);
            lemma_in_order_len(n.right);
        },
    }
}

/// The in-order sequence holds exactly the tree's values.
pub proof fn lemma_in_order_set(t: AvlTree)
    ensures
        in_order(t).to_set() == tree_set(t),
    decreases t,
{
    match t {
        None => {
            assert(in_order(t).to_set() =~= tree_set(t));
        },
        Some(n) => {
            lemma_in_order_set(n.left);
            lemma_in_order_set(n.right);
            let l = in_order(n.left);
            let r = in_order(n.right);
            let s = in_order(t);
            assert(s == l + seq![n.value] + r);
            assert forall|v: u64| s.contains(v) implies tree_set(t).contains(v) by {
                let i = choose|i: int| 0 <= i < s.len() && s[i] == v;
                if i < l.len() {
                    assert(l[i] == v);
                    assert(l.contains(v));
                    assert(l.to_set().contains(v));
                } else if i == l.len() {
                    assert(v == n.value);
                } else {
                    assert(r[i - l.len() - 1] == v);
                    assert(r.contains(v));
                    assert(r.to_set().contains(v));
                }
            }
            assert forall|v: u64| tree_set(t).contains(v) implies s.contains(v) by {
                if tree_set(n.left).contains(v) {
                    assert(l.contains(v));
                    let i = choose|i: int| 0 <= i < l.len() && l[i] == v;
                    assert(s[i] == v);
                } else if tree_set(n.right).contains(v) {
                    assert(r.contains(v));
                    let i = choose|i: int| 0 <= i < r.len() && r[i] == v;
                    assert(s[l.len() + 1 + i] == v);
                } else {
                    assert(s[l.len() as int] == v);
                }
            }
            assert(in_order(t).to_set() =~= tree_set(t));
        },
    }
}

/// Order invariant, read off the walk: the in-order sequence of a tree that
/// satisfies the search-tree ordering is strictly ascending.
pub proof fn lemma_bst_in_order_sorted(t: AvlTree)
    requires
        is_bst(t),
    ensures
        sorted_strict(in_order(t)),
    decreases t,
{
    match t {
        None => {},
        Some(n) => {
            lemma_bst_in_order_sorted(n.left);
            lemma_bst_in_order_sorted(n.right);
            lemma_in_order_set(n.left);
            lemma_in_order_set(n.right);
            let l = in_order(n.left);
            let r = in_order(n.right);
            let s = in_order(t);
            assert(s == l + seq![n.value] + r);
            assert forall|i: int, j: int| 0 <= i < j < s.len() implies s[i] < s[j] by {
                if i < l.len() {
                    assert(l.contains(l[i]));
                    assert(tree_set(n.left).contains(s[i]));
                }
                if j > l.len() {
                    assert(r.contains(r[j - l.len() - 1]));
                    assert(tree_set(n.right).contains(s[j]));
                }
                if j < l.len() {
                    assert(l[i] < l[j]);
                } else if i > l.len() {
                    assert(r[i - l.len() - 1] < r[j - l.len() - 1]);
                }
            }
        },
    }
}

/// A well-formed tree's value set is finite and as large as its node count:
/// no value is stored twice.
pub proof fn lemma_tree_set_len(t: AvlTree)
    requires
        is_bst(t),
    ensures
        tree_set(t).finite(),
        tree_set(t).len() == tree_size(t),
{
    broadcast use vstd::seq_lib::seq_to_set_is_finite;

    lemma_bst_in_order_sorted(t);
    lemma_in_order_set(t);
    lemma_in_order_len(t);
    let s = in_order(t);
    assert forall|i: int, j: int|
        0 <= i < s.len() && 0 <= j < s.len() && i != j implies s[i] != s[j] by {
        if i < j {
            assert(s[i] < s[j]);
        } else {
            assert(s[j] < s[i]);
        }
    }
    s.unique_seq_to_set();
}

/// A strictly ascending sequence is determined by its value set: two such
/// sequences over the same values are equal.
pub proof fn lemma_sorted_unique(a: Seq<u64>, b: Seq<u64>)
    requires
        sorted_strict(a),
        sorted_strict(b),
        a.to_set() == b.to_set(),
    ensures
        a == b,
    decreases a.len(),
{
    if a.len() == 0 {
        if b.len() > 0 {
            assert(b.contains(b[0]));
            assert(a.to_set().contains(b[0]));
            assert(a.contains(b[0]));
        }
        assert(a =~= b);
    } else if b.len() == 0 {
        assert(a.contains(a[0]));
        assert(b.to_set().contains(a[0]));
        assert(b.contains(a[0]));
    } else {
        // Each head is the least of the (shared) value set, so they agree.
        assert(a.contains(a[0]));
        assert(b.contains(b[0]));
        assert(b.to_set().contains(a[0]));
        assert(b.contains(a[0]));
        assert(a.to_set().contains(b[0]));
        assert(a.contains(b[0]));
        let ia = choose|i: int| 0 <= i < a.len() && a[i] == b[0];
        let ib = choose|i: int| 0 <= i < b.len() && b[i] == a[0];
        assert(ia == 0 || a[0] < a[ia]);
        assert(ib == 0 || b[0] < b[ib]);
        assert(a[0] == b[0]);
        // The tails again hold the same values, strictly above the head.
        let at = a.drop_first();
        let bt = b.drop_first();
        assert forall|i: int, j: int| 0 <= i < j < at.len() implies at[i] < at[j] by {
            assert(a[i + 1] < a[j + 1]);
        }
        assert forall|i: int, j: int| 0 <= i < j < bt.len() implies bt[i] < bt[j] by {
            assert(b[i + 1] < b[j + 1]);
        }
        assert forall|v: u64| at.contains(v) implies bt.contains(v) by {
            let i = choose|i: int| 0 <= i < at.len() && at[i] == v;
            assert(a[i + 1] == v);
            assert(a[0] < v);
            assert(a.contains(v));
            assert(b.to_set().contains(v));
            assert(b.contains(v));
            let j = choose|j: int| 0 <= j < b.len() && b[j] == v;
            assert(j != 0);
            assert(bt[j - 1] == v);
        }
        assert forall|v: u64| bt.contains(v) implies at.contains(v) by {
            let i = choose|i: int| 0 <= i < bt.len() && bt[i] == v;
            assert(b[i + 1] == v);
            assert(b[0] < v);
            assert(b.contains(v));
            assert(a.to_set().contains(v));
            assert(a.contains(v));
            let j = choose|j: int| 0 <= j < a.len() && a[j] == v;
            assert(j != 0);
            assert(at[j - 1] == v);
        }
        assert(at.to_set() =~= bt.to_set());
        lemma_sorted_unique(at, bt);
        assert forall|i: int| 0 <= i < a.len() implies a[i] == b[i] by {
            if i > 0 {
                assert(at[i - 1] == bt[i - 1]);
            }
        }
        assert(a =~= b);
    }
}

/// Balance invariant, stated on its own: a well-formed tree is
/// height-balanced at every node.
pub proof fn law_balanced(t: AvlTree)
    requires
        wf_tree(t),
    ensures
        balanced(t),
{
}

/// Order invariant, stated on its own: after any operation that leaves the
/// tree well formed, an in-order walk is strictly increasing.
pub proof fn law_in_order_ascending(t: AvlTree)
    requires
        wf_tree(t),
    ensures
        is_bst(t),
        sorted_strict(in_order(t)),
{
    lemma_bst_in_order_sorted(t);
}

/// Round-trip: a well-formed tree holding exactly the values of `xs` has as
/// its in-order sequence the one strictly ascending sequence over those
/// values - the sorted, de-duplicated form of `xs`.
pub proof fn law_round_trip(t: AvlTree, xs: Seq<u64>, sorted_xs: Seq<u64>)
    requires
        wf_tree(t),
        tree_set(t) == xs.to_set(),
        sorted_strict(sorted_xs),
        sorted_xs.to_set() == xs.to_set(),
    ensures
        in_order(t) == sorted_xs,
{
    lemma_bst_in_order_sorted(t);
    lemma_in_order_set(t);
    lemma_sorted_unique(in_order(t), sorted_xs);
}

/// Set semantics: a sequence of pairwise distinct values yields a value set
/// of the same size, so building a set from it gives a matching length.
pub proof fn law_distinct_values_count(xs: Seq<u64>)
    requires
        xs.no_duplicates(),
    ensures
        xs.to_set().len() == xs.len(),
{
    xs.unique_seq_to_set();
}

} // verus!
