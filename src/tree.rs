//! A binary search tree node that owns its two subtrees, and the membership
//! query that walks down from it.
use crate::order::{equiv, less, lemma_total, lemma_leq_trans, lemma_obeys};
use vstd::laws_cmp::*;
use vstd::prelude::*;
use vstd::std_specs::cmp::{OrdSpec, PartialEqSpec, PartialOrdSpec};

verus! {

/// A node of a binary search tree. The caller attaches the children; for
/// `contains` to find every value, each value in `left` should be less than
/// `value` and each value in `right` greater.
pub struct TreeNode<T> {
    pub value: T,
    pub left: Option<Box<TreeNode<T>>>,
    pub right: Option<Box<TreeNode<T>>>,
}

impl<T: Ord> TreeNode<T> {
    /// `pred` holds of the value of every node of the tree.
    pub open spec fn every(self, pred: spec_fn(T) -> bool) -> bool
        decreases self,
    {
        &&& pred(self.value)
        &&& match self.left {
            Some(l) => l.every(pred),
            None => true,
        }
        &&& match self.right {
            Some(r) => r.every(pred),
            None => true,
        }
    }

    /// Some node of the tree holds a value equal to `t`.
    pub open spec fn holds(self, t: T) -> bool
        decreases self,
    {
        ||| equiv(t, self.value)
        ||| match self.left {
            Some(l) => l.holds(t),
            None => false,
        }
        ||| match self.right {
            Some(r) => r.holds(t),
            None => false,
        }
    }

    /// Each node's left subtree holds only values less than its own, and its
    /// right subtree only values greater.
    pub open spec fn is_search_tree(self) -> bool
        decreases self,
    {
        &&& match self.left {
            Some(l) => l.every(|w: T| less(w, self.value)) && l.is_search_tree(),
            None => true,
        }
        &&& match self.right {
            Some(r) => r.every(|w: T| less(self.value, w)) && r.is_search_tree(),
            None => true,
        }
    }

    /// `t` is met on the way down from this node that compares `t` with each
    /// value in turn: equal ends the walk, less goes left, greater goes right.
    pub open spec fn on_search_path(self, t: T) -> bool
        decreases self,
    {
        if equiv(t, self.value) {
            true
        } else if less(t, self.value) {
            match self.left {
                Some(l) => l.on_search_path(t),
                None => false,
            }
        } else {
            match self.right {
                Some(r) => r.on_search_path(t),
                None => false,
            }
        }
    }

    /// A tree none of whose values could equal `t` does not hold `t`.
    proof fn lemma_every_excludes(self, pred: spec_fn(T) -> bool, t: T)
        requires
            self.every(pred),
            forall|w: T| #[trigger] pred(w) ==> !equiv(t, w),
        ensures
            !self.holds(t),
        decreases self,
    {
        if let Some(l) = &self.left {
            l.lemma_every_excludes(pred, t);
        }
        if let Some(r) = &self.right {
            r.lemma_every_excludes(pred, t);
        }
    }

    /// Creates a node holding `value`, with no children.
    pub fn new(value: T) -> (node: Self)
        ensures
            node.value == value,
            node.left.is_none(),
            node.right.is_none(),
    {
        TreeNode { value, left: None, right: None }
    }

    /// Whether `target` is met on the way down from this node: compared equal
    /// it is found; less, the search goes on in the left subtree; greater, in
    /// the right one; a missing subtree ends it with false. In a search tree
    /// that is exactly whether some node holds a value equal to `target`.
    pub fn contains(&self, target: &T) -> (r: bool)
        requires
            obeys_cmp::<T>(),
        ensures
            r == self.on_search_path(*target),
            self.is_search_tree() ==> r == self.holds(*target),
        decreases self,
    {
        proof {
            lemma_obeys::<T>();
            lemma_total(*target, self.value);
            lemma_total(self.value, *target);
        }
        if *target == self.value {
            return true;
        }
        if *target < self.value {
            proof {
                if self.is_search_tree() {
                    if let Some(r) = &self.right {
                        let above = |w: T| less(self.value, w);
                        assert forall|w: T| #[trigger] above(w) implies !equiv(
                            *target,
                            w,
                        ) by {
                            lemma_total(*target, w);
                            lemma_total(self.value, w);
                            lemma_leq_trans(*target, self.value, w);
                        }
                        r.lemma_every_excludes(above, *target);
                    }
                }
            }
            if let Some(ref left) = self.left {
                return left.contains(target);
            }
        } else {
            proof {
                if self.is_search_tree() {
                    if let Some(l) = &self.left {
                        let below = |w: T| less(w, self.value);
                        assert forall|w: T| #[trigger] below(w) implies !equiv(
                            *target,
                            w,
                        ) by {
                            lemma_total(w, *target);
                            lemma_total(*target, w);
                            lemma_total(w, self.value);
                            lemma_leq_trans(w, self.value, *target);
                        }
                        l.lemma_every_excludes(below, *target);
                    }
                }
            }
            if let Some(ref right) = self.right {
                return right.contains(target);
            }
        }
        false
    }
}

} // verus!
