//! The tree's public interface.

use vstd::multiset::Multiset;
use vstd::prelude::*;

use crate::node::{
    balanced, heights_exact, in_order_of, in_order_recursive, insert_recursively, keys_of,
    lemma_avl_balanced, lemma_empty_keys, lemma_exact_balanced_avl, lemma_in_order_sorted,
    lemma_traversals_complete, post_order_of, post_order_recursive, pre_order_of,
    pre_order_recursive, remove_recursively, search_recursively, sorted, stored_height, true_height, wf, Link,
};
use crate::order::TotalOrder;

verus! {

/// An AVL tree of keys. Equal keys may be held more than once.
#[derive(Debug)]
pub struct Tree<T: TotalOrder> {
    root: Link<T>,
}

impl<T: TotalOrder> View for Tree<T> {
    type V = Multiset<T>;

    /// The keys held, with multiplicity.
    closed spec fn view(&self) -> Multiset<T> {
        keys_of(self.root)
    }
}

impl<T: TotalOrder> Tree<T> {
    #[verifier::type_invariant]
    spec fn inv(self) -> bool {
        wf(self.root)
    }

    /// The keys in order: left subtree, node, right subtree.
    pub closed spec fn in_order_seq(self) -> Seq<T> {
        in_order_of(self.root)
    }

    /// The keys in pre-order: node, left subtree, right subtree.
    pub closed spec fn pre_order_seq(self) -> Seq<T> {
        pre_order_of(self.root)
    }

    /// The keys in post-order: left subtree, right subtree, node.
    pub closed spec fn post_order_seq(self) -> Seq<T> {
        post_order_of(self.root)
    }

    /// The height recorded at the root; -1 for the empty tree.
    pub closed spec fn root_height(self) -> int {
        stored_height(self.root)
    }

    /// The length of the longest path from the root down to a leaf; -1 for
    /// the empty tree.
    pub closed spec fn depth(self) -> int {
        true_height(self.root)
    }

    /// Every recorded height is exact, and at every node the heights of the
    /// two subtrees differ by at most one.
    pub closed spec fn is_avl(self) -> bool {
        heights_exact(self.root) && balanced(self.root)
    }

    /// Creates an empty tree.
    pub fn new() -> (t: Tree<T>)
        ensures
            t@ == Multiset::<T>::empty(),
            t.is_avl(),
            t.root_height() == -1,
    {
        Tree { root: None }
    }

    /// Whether the tree holds no key.
    pub fn is_empty(&self) -> (r: bool)
        ensures
            r == (self@.len() == 0),
    {
        proof {
            lemma_empty_keys(self.root);
        }
        self.root.is_none()
    }

    /// Returns a copy of the first key equal to `key` met on the way down
    /// from the root, or `None` when the tree holds no such key.
    pub fn search(&self, key: T) -> (r: Option<T>)
        ensures
            r == (if self@.contains(key) {
                Some(key)
            } else {
                None::<T>
            }),
    {
        proof {
            use_type_invariant(self);
        }
        search_recursively(&self.root, key)
    }

    /// Inserts `value`, rebalancing on the way back up to the root.
    pub fn insert(&mut self, value: T)
        requires
            old(self).root_height() < i32::MAX,
        ensures
            final(self)@ == old(self)@.insert(value),
            final(self)@.len() > 0,
            old(self).is_avl() ==> final(self).is_avl(),
            old(self).is_avl() ==> old(self).root_height() <= final(self).root_height(),
            final(self).root_height() <= old(self).root_height() + 1,
    {
        proof {
            use_type_invariant(&*self);
            if self.is_avl() {
                lemma_exact_balanced_avl(self.root);
            }
        }
        let mut root = None;
        core::mem::swap(&mut root, &mut self.root);
        self.root = insert_recursively(root, value);
        proof {
            lemma_empty_keys(self.root);
            if old(self).is_avl() {
                lemma_avl_balanced(self.root);
            }
        }
    }

    /// Removes one key equal to `key`, the first met on the way down from
    /// the root; does nothing when there is none. No height is recomputed and
    /// nothing is rotated.
    pub fn remove(&mut self, key: T)
        ensures
            final(self)@ == old(self)@.remove(key),
            !old(self)@.contains(key) ==> *final(self) == *old(self),
            !old(self)@.contains(key) ==> final(self).in_order_seq() == old(self).in_order_seq(),
            final(self).root_height() <= old(self).root_height(),
    {
        proof {
            use_type_invariant(&*self);
        }
        let mut root = None;
        core::mem::swap(&mut root, &mut self.root);
        self.root = remove_recursively(root, key);
    }

    /// The keys in order, ascending.
    pub fn in_order(&self) -> (r: Vec<T>)
        ensures
            r@ == self.in_order_seq(),
            sorted(r@),
            r@.to_multiset() == self@,
    {
        proof {
            use_type_invariant(self);
            lemma_in_order_sorted(self.root);
            lemma_traversals_complete(self.root);
        }
        let mut result = Vec::new();
        in_order_recursive(&self.root, &mut result);
        proof {
            assert(result@ =~= self.in_order_seq());
        }
        result
    }

    /// The keys in pre-order.
    pub fn pre_order(&self) -> (r: Vec<T>)
        ensures
            r@ == self.pre_order_seq(),
            r@.to_multiset() == self@,
    {
        proof {
            lemma_traversals_complete(self.root);
        }
        let mut result = Vec::new();
        pre_order_recursive(&self.root, &mut result);
        proof {
            assert(result@ =~= self.pre_order_seq());
        }
        result
    }

    /// The keys in post-order.
    pub fn post_order(&self) -> (r: Vec<T>)
        ensures
            r@ == self.post_order_seq(),
            r@.to_multiset() == self@,
    {
        proof {
            lemma_traversals_complete(self.root);
        }
        let mut result = Vec::new();
        post_order_recursive(&self.root, &mut result);
        proof {
            assert(result@ =~= self.post_order_seq());
        }
        result
    }

    pub closed spec fn spec_root(self) -> Link<T> {
        self.root
    }

    /// The root node, for walking the tree's shape; `None` when empty.
    pub fn root(&self) -> (r: &Link<T>)
        ensures
            *r == self.spec_root(),
            r.is_none() == (self@.len() == 0),
    {
        proof {
            lemma_empty_keys(self.root);
        }
        &self.root
    }

    /// The height recorded at the root: the longest path down to a leaf
    /// while only insertions have been made; -1 for the empty tree.
    pub fn height(&self) -> (h: i32)
        ensures
            h as int == self.root_height(),
            self.is_avl() ==> h as int == self.depth(),
    {
        proof {
            use_type_invariant(self);
            if self.is_avl() {
                lemma_exact_balanced_avl(self.root);
                lemma_avl_balanced(self.root);
            }
        }
        match &self.root {
            Some(n) => n.height,
            None => -1,
        }
    }

    /// A new tree is empty, and no tree is empty after an insertion: `new`
    /// holds the empty multiset, `insert` adds its key to the multiset, and
    /// `is_empty` tells whether the multiset has size zero.
    pub proof fn lemma_empty_until_insert(t: Tree<T>, value: T)
        ensures
            Multiset::<T>::empty().len() == 0,
            t@.insert(value).len() > 0,
    {
        broadcast use vstd::multiset::group_multiset_axioms;

    }
}

} // verus!
