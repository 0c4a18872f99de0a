//! The tree's unit of storage: one key, the cached height of the subtree
//! rooted here, and exclusive ownership of the two child subtrees.

use vstd::prelude::*;
use crate::order::OrderedKey;

verus! {

#[derive(Debug)]
pub struct Node<T> {
    /// Cached height of the subtree rooted here; a leaf has height 0.
    pub height: i16,
    pub left: Option<Box<Node<T>>>,
    pub right: Option<Box<Node<T>>>,
    pub key: T,
}

/// Height of an optional subtree: an absent child counts as height -1.
pub open spec fn opt_height<T>(node: Option<Box<Node<T>>>) -> int
    decreases node,
{
    match node {
        None => -1,
        Some(n) => n.spec_height(),
    }
}

/// The set of keys stored in an optional subtree.
pub open spec fn opt_keys<T>(node: Option<Box<Node<T>>>) -> Set<T>
    decreases node,
{
    match node {
        None => Set::empty(),
        Some(n) => n.spec_keys(),
    }
}

/// Every cached `height` field in an optional subtree equals the true height.
pub open spec fn opt_heights_ok<T>(node: Option<Box<Node<T>>>) -> bool
    decreases node,
{
    match node {
        None => true,
        Some(n) => n.spec_heights_ok(),
    }
}

/// Every node of an optional subtree has a balance factor in {-1, 0, 1}.
pub open spec fn opt_balanced<T>(node: Option<Box<Node<T>>>) -> bool
    decreases node,
{
    match node {
        None => true,
        Some(n) => n.spec_balanced(),
    }
}

/// Binary-search-tree order over an optional subtree.
pub open spec fn opt_ordered<T: OrderedKey>(node: Option<Box<Node<T>>>) -> bool
    decreases node,
{
    match node {
        None => true,
        Some(n) => n.spec_ordered(),
    }
}

/// Full well-formedness of an optional subtree: BST order, AVL balance,
/// and correct height caches.
pub open spec fn opt_wf<T: OrderedKey>(node: Option<Box<Node<T>>>) -> bool {
    opt_ordered(node) && opt_balanced(node) && opt_heights_ok(node)
}

impl<T> Node<T> {
    /// True height of the subtree rooted at `self` (a leaf has height 0),
    /// computed from the structure, independent of the cached fields.
    pub open spec fn spec_height(self) -> int
        decreases self,
    {
        1 + vstd::math::max(opt_height(self.left), opt_height(self.right))
    }

    /// The set of keys stored in the subtree rooted at `self`.
    pub open spec fn spec_keys(self) -> Set<T>
        decreases self,
    {
        opt_keys(self.left).union(opt_keys(self.right)).insert(self.key)
    }

    /// The cached `height` of every node below and including `self` equals
    /// the true height of its subtree.
    pub open spec fn spec_heights_ok(self) -> bool
        decreases self,
    {
        &&& self.height as int == self.spec_height()
        &&& opt_heights_ok(self.left)
        &&& opt_heights_ok(self.right)
    }

    /// The true balance factor: left height minus right height.
    pub open spec fn spec_balance(self) -> int {
        opt_height(self.left) - opt_height(self.right)
    }

    /// Every node below and including `self` has balance factor in {-1, 0, 1}.
    pub open spec fn spec_balanced(self) -> bool
        decreases self,
    {
        &&& -1 <= self.spec_balance() <= 1
        &&& opt_balanced(self.left)
        &&& opt_balanced(self.right)
    }

    /// Cached height of the left child, with -1 for an absent child.
    pub open spec fn left_cached_height(self) -> int {
        match self.left {
            None => -1,
            Some(n) => n.height as int,
        }
    }

    /// Cached height of the right child, with -1 for an absent child.
    pub open spec fn right_cached_height(self) -> int {
        match self.right {
            None => -1,
            Some(n) => n.height as int,
        }
    }

    /// Constructs a leaf: height 0, no children.
    pub fn new(key: T) -> (n: Self)
        ensures
            n == (Node { height: 0i16, left: None::<Box<Node<T>>>, right: None::<Box<Node<T>>>, key }),
    {
        Node { height: 0, left: None, right: None, key }
    }

    /// Recomputes the cached `height` from the children's cached heights.
    /// The owner must call this right after any change to `left` or `right`.
    pub fn update_heigh(&mut self)
        requires
            old(self).left_cached_height() < i16::MAX,
            old(self).right_cached_height() < i16::MAX,
        ensures
            *final(self) == (Node {
                height: (vstd::math::max(old(self).left_cached_height(), old(self).right_cached_height()) + 1) as i16,
                ..*old(self)
            }),
    {
        let left_height: i16 = match &self.left {
            None => -1,
            Some(n) => n.height,
        };
        let right_height: i16 = match &self.right {
            None => -1,
            Some(n) => n.height,
        };
        let taller: i16 = if left_height >= right_height { left_height } else { right_height };
        self.height = taller + 1;
    }

    /// Returns left cached height minus right cached height; no mutation,
    /// no recursive recomputation.
    pub fn balance_facator(&self) -> (b: i16)
        requires
            i16::MIN <= self.left_cached_height() - self.right_cached_height(),
            self.left_cached_height() - self.right_cached_height() <= i16::MAX,
        ensures
            b as int == self.left_cached_height() - self.right_cached_height(),
    {
        let left_height: i16 = match &self.left {
            None => -1,
            Some(n) => n.height,
        };
        let right_height: i16 = match &self.right {
            None => -1,
            Some(n) => n.height,
        };
        left_height - right_height
    }
}

/// The true height of a subtree is never below -1, and a present subtree
/// has height at least 0.
pub proof fn lemma_opt_height_bounds<T>(node: Option<Box<Node<T>>>)
    ensures
        opt_height(node) >= -1,
        node is Some ==> opt_height(node) >= 0,
    decreases node,
{
    match node {
        None => {
        }
        Some(n) => {
            lemma_opt_height_bounds(n.left);
            lemma_opt_height_bounds(n.right);
        }
    }
}

impl<T: OrderedKey> Node<T> {
    /// Binary-search-tree order: all keys on the left precede this node's
    /// key, which precedes all keys on the right; recursively below.
    pub open spec fn spec_ordered(self) -> bool
        decreases self,
    {
        &&& (forall|k: T| #[trigger] opt_keys(self.left).contains(k) ==> k.precedes(self.key))
        &&& (forall|k: T| #[trigger] opt_keys(self.right).contains(k) ==> self.key.precedes(k))
        &&& opt_ordered(self.left)
        &&& opt_ordered(self.right)
    }
}

} // verus!
