//! The set facade: the public type wrapping an optional root and a cached
//! element count, exposing insertion, removal, membership, length, in-order
//! enumeration, and construction from a sequence. Its abstract view is the
//! mathematical set of stored values.

use vstd::assert_sets_equal;
use vstd::prelude::*;

use crate::laws::{
    lemma_bst_in_order_sorted, lemma_in_order_len, lemma_in_order_set, lemma_tree_set_len,
    sorted_strict,
};
use crate::node::{in_order, tree_height, tree_set, tree_size, wf_tree, AvlTree};
use crate::ops::{collect_in_order, contains_in, insert_into, remove_from};

verus! {

/// An ordered set of `u64` values, backed by a height-balanced search tree.
pub struct AvlTreeSet {
    pub root: AvlTree,
    pub size: usize,
}

impl View for AvlTreeSet {
    type V = Set<u64>;

    open spec fn view(&self) -> Set<u64> {
        tree_set(self.root)
    }
}

impl AvlTreeSet {
    /// The representation invariant: the tree is well formed (search-tree
    /// order, balance, fresh height caches) and the cached count equals the
    /// number of nodes. Every public operation takes and returns sets in
    /// this state.
    pub open spec fn wf(&self) -> bool {
        wf_tree(self.root) && self.size == tree_size(self.root)
    }

    /// The empty set.
    pub fn new() -> (s: Self)
        ensures
            s.wf(),
            s@ == Set::<u64>::empty(),
    {
        AvlTreeSet { root: None, size: 0 }
    }

    /// Inserts a value; returns `true` iff it was not already present.
    /// A present value is a no-op (set semantics), so the set is unchanged
    /// and the length does not move.
    pub fn insert(&mut self, value: u64) -> (inserted: bool)
        requires
            old(self).wf(),
            old(self)@.len() < usize::MAX,
        ensures
            final(self).wf(),
            final(self)@ == old(self)@.insert(value),
            inserted == !old(self)@.contains(value),
            final(self)@.len() == old(self)@.len() + (if inserted {
                1int
            } else {
                0int
            }),
            !inserted ==> final(self)@ == old(self)@,
    {
        proof {
            lemma_tree_set_len(old(self).root);
        }
        let inserted = insert_into(&mut self.root, value);
        if inserted {
            self.size = self.size + 1;
        }
        proof {
            lemma_tree_set_len(self.root);
            if !inserted {
                assert(final(self)@ =~= old(self)@);
            }
        }
        inserted
    }

    /// Removes a value; returns `true` iff it was present. Removing an
    /// absent value leaves the set untouched.
    pub fn remove(&mut self, value: u64) -> (removed: bool)
        requires
            old(self).wf(),
        ensures
            final(self).wf(),
            final(self)@ == old(self)@.remove(value),
            removed == old(self)@.contains(value),
            final(self)@.len() + (if removed {
                1int
            } else {
                0int
            }) == old(self)@.len(),
            !removed ==> final(self)@ == old(self)@,
    {
        proof {
            lemma_tree_set_len(old(self).root);
        }
        let removed = remove_from(&mut self.root, value);
        if removed {
            self.size = self.size - 1;
        }
        proof {
            lemma_tree_set_len(self.root);
            if !removed {
                assert(final(self)@ =~= old(self)@);
            }
        }
        removed
    }

    /// Membership test.
    pub fn contains(&self, value: u64) -> (found: bool)
        requires
            self.wf(),
        ensures
            found == self@.contains(value),
    {
        contains_in(&self.root, value)
    }

    /// The number of distinct stored values; equals the count produced by
    /// in-order enumeration.
    pub fn len(&self) -> (n: usize)
        requires
            self.wf(),
        ensures
            n == self@.len(),
    {
        proof {
            lemma_tree_set_len(self.root);
        }
        self.size
    }

    /// Whether the set holds no value.
    pub fn is_empty(&self) -> (empty: bool)
        requires
            self.wf(),
        ensures
            empty == (self@.len() == 0),
            empty == (self@ == Set::<u64>::empty()),
    {
        proof {
            lemma_tree_set_len(self.root);
            if self.root is Some {
                let n = self.root.unwrap();
                assert(self@.contains(n.value));
                assert(self@ != Set::<u64>::empty());
            } else {
                assert(self@ =~= Set::<u64>::empty());
            }
        }
        self.root.is_none()
    }

    /// The stored values in strictly ascending order: a fresh, independent
    /// in-order traversal that does not touch the tree.
    pub fn iter(&self) -> (out: Vec<u64>)
        requires
            self.wf(),
        ensures
            out@ == in_order(self.root),
            sorted_strict(out@),
            out@.to_set() == self@,
            out@.len() == self@.len(),
    {
        let mut out: Vec<u64> = Vec::new();
        collect_in_order(&self.root, &mut out);
        proof {
            assert(out@ =~= in_order(self.root));
            lemma_bst_in_order_sorted(self.root);
            lemma_in_order_set(self.root);
            lemma_tree_set_len(self.root);
            lemma_in_order_len(self.root);
        }
        out
    }

    /// Builds a set by inserting the values in sequence order; later
    /// duplicates are dropped (set semantics).
    pub fn from_sequence(values: &Vec<u64>) -> (s: Self)
        ensures
            s.wf(),
            s@ == values@.to_set(),
    {
        let mut s = AvlTreeSet::new();
        proof {
            assert(s@ =~= values@.take(0).to_set());
        }
        let n = values.len();
        let mut i: usize = 0;
        while i < n
            invariant
                s.wf(),
                n == values@.len(),
                i <= n,
                s@ == values@.take(i as int).to_set(),
                s@.len() <= i,
            decreases n - i,
        {
            let ghost pre = values@.take(i as int);
            let value = values[i];
            s.insert(value);
            proof {
                assert(values@.take(i as int + 1) =~= pre.push(value));
                assert_sets_equal!(pre.push(value).to_set() == pre.to_set().insert(value), v => {
                    if pre.push(value).to_set().contains(v) {
                        let k = choose|k: int|
                            0 <= k < pre.push(value).len() && pre.push(value)[k] == v;
                        if k < pre.len() {
                            assert(pre[k] == v);
                            assert(pre.contains(v));
                        }
                    }
                    if pre.to_set().contains(v) {
                        let k = choose|k: int| 0 <= k < pre.len() && pre[k] == v;
                        assert(pre.push(value)[k] == v);
                        assert(pre.push(value).contains(v));
                    }
                    if v == value {
                        assert(pre.push(value)[pre.len() as int] == v);
                        assert(pre.push(value).contains(v));
                    }
                });
            }
            i = i + 1;
        }
        proof {
            assert(values@.take(n as int) =~= values@);
        }
        s
    }

    /// The height of the whole tree: 0 when empty, read from the root's
    /// cache in O(1).
    pub fn height(&self) -> (h: usize)
        requires
            self.wf(),
        ensures
            h == tree_height(self.root),
    {
        match &self.root {
            None => 0,
            Some(n) => n.height,
        }
    }

    /// The value at the root, if any.
    pub fn root_value(&self) -> (v: Option<u64>)
        ensures
            v == (match self.root {
                None => None::<u64>,
                Some(n) => Some(n.value),
            }),
    {
        match &self.root {
            None => None,
            Some(n) => Some(n.value),
        }
    }
}

} // verus!
