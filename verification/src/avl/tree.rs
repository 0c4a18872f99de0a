//! The public container: owns the root node and implements insertion with
//! rebalancing and the predecessor query.

use vstd::prelude::*;
use core::cmp::Ordering;
use crate::order::OrderedKey;
use crate::order::has_equiv;
use crate::order::same_key;
use crate::avl::node::Node;
use crate::avl::node::lemma_opt_height_bounds;
use crate::avl::node::opt_balanced;
use crate::avl::node::opt_height;
use crate::avl::node::opt_heights_ok;
use crate::avl::node::opt_keys;
use crate::avl::node::opt_ordered;
use crate::avl::node::opt_wf;

verus! {

pub struct Tree<T> {
    pub root: Option<Box<Node<T>>>,
}

/// The subtree a borrowed cursor points at, as an owned optional node.
pub open spec fn peeled<T>(c: Option<&Box<Node<T>>>) -> Option<Box<Node<T>>> {
    match c {
        None => None,
        Some(n) => Some(*n),
    }
}

impl<T: OrderedKey> View for Tree<T> {
    type V = Set<T>;

    /// The tree viewed as the set of keys it stores.
    open spec fn view(&self) -> Set<T> {
        opt_keys(self.root)
    }
}

impl<T: OrderedKey> Tree<T> {
    /// BST order, AVL balance and correct height caches over the whole tree.
    pub open spec fn well_formed(self) -> bool {
        opt_wf(self.root)
    }

    /// Height of the tree: -1 when empty, 0 for a single node.
    pub open spec fn height(self) -> int {
        opt_height(self.root)
    }

    /// Constructs the empty tree.
    pub fn new() -> (t: Self)
        ensures
            t.well_formed(),
            t@ == Set::<T>::empty(),
            t.height() == -1,
    {
        Tree { root: None }
    }

    /// Adds `key` to the set of stored keys; a silent no-op when an
    /// equivalent key is already present, in which case the tree is left
    /// exactly as it was. All tree invariants are preserved, and the height
    /// grows by at most one. The height cache is an `i16`, so the tree must
    /// have room to grow a level.
    pub fn insert(&mut self, key: T)
        requires
            old(self).well_formed(),
            old(self).height() < i16::MAX,
        ensures
            final(self).well_formed(),
            has_equiv(old(self)@, key) ==> *final(self) == *old(self),
            !has_equiv(old(self)@, key) ==> final(self)@ =~= old(self)@.insert(key),
            old(self).height() <= final(self).height() <= old(self).height() + 1,
    {
        self.root = Self::insert_recursive(self.root.take(), key);
    }

    /// Returns the greatest stored key that strictly precedes `key`.
    /// When a stored key is equivalent to `key`, that stored key itself is
    /// returned (the documented behaviour on an exact match). Returns
    /// `None` when nothing precedes `key`: the tree is empty, or `key` is
    /// at most the minimum stored key.
    pub fn predecessor(&self, key: T) -> (r: Option<&T>)
        requires
            self.well_formed(),
        ensures
            match r {
                Some(p) => self@.contains(*p) && (if has_equiv(self@, key) {
                    same_key(*p, key)
                } else {
                    (*p).precedes(key) && (forall|k: T|
                        self@.contains(k) && #[trigger] k.precedes(key) ==> !(*p).precedes(k))
                }),
                None => !has_equiv(self@, key) && (forall|k: T|
                    self@.contains(k) ==> !(#[trigger] k.precedes(key))),
            },
    {
        let mut curr: Option<&Box<Node<T>>> = self.root.as_ref();
        let mut best: Option<&Box<Node<T>>> = None;

        loop
            invariant
                self.well_formed(),
                opt_wf(peeled(curr)),
                forall|k: T| #[trigger] opt_keys(peeled(curr)).contains(k) ==> self@.contains(k),
                best is Some ==> self@.contains(best.unwrap().key)
                    && best.unwrap().key.precedes(key),
                best is Some ==> forall|k: T| #[trigger] opt_keys(peeled(curr)).contains(k)
                    ==> best.unwrap().key.precedes(k),
                has_equiv(self@, key) ==> has_equiv(opt_keys(peeled(curr)), key),
                forall|k: T| self@.contains(k) && #[trigger] k.precedes(key)
                    && !opt_keys(peeled(curr)).contains(k)
                    ==> best is Some && !best.unwrap().key.precedes(k),
            decreases opt_height(peeled(curr)) + 1,
        {
            proof {
                reveal_with_fuel(opt_height, 3);
                reveal_with_fuel(opt_heights_ok, 3);
                reveal_with_fuel(opt_balanced, 3);
                reveal_with_fuel(opt_ordered, 3);
                reveal_with_fuel(opt_keys, 3);
                reveal_with_fuel(Node::spec_height, 3);
                reveal_with_fuel(Node::spec_heights_ok, 3);
                reveal_with_fuel(Node::spec_balanced, 3);
                reveal_with_fuel(Node::spec_ordered, 3);
                reveal_with_fuel(Node::spec_keys, 3);
                lemma_opt_height_bounds(peeled(curr));
            }
            match curr {
                None => {
                    match best {
                        None => {
                            proof {
                                if has_equiv(self@, key) {
                                    assert(has_equiv(opt_keys(peeled(curr)), key));
                                    let k = choose|k: T|
                                        #[trigger] opt_keys(peeled(curr)).contains(k)
                                            && same_key(k, key);
                                    assert(false);
                                }
                            }
                            return None;
                        }
                        Some(node) => {
                            proof {
                                if has_equiv(self@, key) {
                                    let k = choose|k: T|
                                        #[trigger] opt_keys(peeled(curr)).contains(k)
                                            && same_key(k, key);
                                    assert(false);
                                }
                            }
                            let o = node.key.cmp_keys(&key);
                            match o {
                                Ordering::Less => {
                                    return Some(&node.key);
                                }
                                _ => {
                                    // the tracked candidate always precedes `key`
                                    proof {
                                        assert(false);
                                    }
                                    return None;
                                }
                            }
                        }
                    }
                }
                Some(node) => {
                    proof {
                        lemma_opt_height_bounds(node.left);
                        lemma_opt_height_bounds(node.right);
                        assert(opt_keys(peeled(curr)).contains(node.key));
                    }
                    let o = node.key.cmp_keys(&key);
                    match o {
                        Ordering::Greater => {
                            // all keys here and to the right follow `key`: go left
                            proof {
                                assert forall|k: T|
                                    self@.contains(k) && #[trigger] k.precedes(key)
                                        && !opt_keys(node.left).contains(k)
                                        && opt_keys(peeled(curr)).contains(k)
                                    implies false by {
                                    if k == node.key {
                                        T::lemma_asymmetric(key, node.key);
                                    } else if opt_keys(node.right).contains(k) {
                                        T::lemma_transitive(key, node.key, k);
                                        T::lemma_asymmetric(key, k);
                                    }
                                }
                                if has_equiv(self@, key) {
                                    let k = choose|k: T|
                                        #[trigger] opt_keys(peeled(curr)).contains(k)
                                            && same_key(k, key);
                                    if k == node.key {
                                    } else if opt_keys(node.right).contains(k) {
                                        T::lemma_transitive(key, node.key, k);
                                    }
                                    assert(opt_keys(node.left).contains(k));
                                }
                            }
                            proof {
                                assert forall|k: T| #[trigger] opt_keys(node.left).contains(k)
                                    implies opt_keys(peeled(curr)).contains(k) by {
                                }
                            }
                            curr = node.left.as_ref();
                            proof {
                                assert(peeled(curr) == node.left);
                            }
                        }
                        Ordering::Less => {
                            // this key precedes `key`: best candidate so far, go right
                            proof {
                                T::lemma_asymmetric(node.key, key);
                                assert forall|k: T|
                                    self@.contains(k) && #[trigger] k.precedes(key)
                                        && !opt_keys(node.right).contains(k)
                                    implies !node.key.precedes(k) by {
                                    if opt_keys(peeled(curr)).contains(k) {
                                        if k == node.key {
                                            if node.key.precedes(node.key) {
                                                T::lemma_asymmetric(node.key, node.key);
                                            }
                                        } else if opt_keys(node.left).contains(k) {
                                            T::lemma_asymmetric(k, node.key);
                                        }
                                    } else {
                                        // accounted for before this subtree was entered
                                        if node.key.precedes(k) {
                                            if best is Some {
                                                T::lemma_transitive(
                                                    best.unwrap().key,
                                                    node.key,
                                                    k,
                                                );
                                            }
                                        }
                                    }
                                }
                                if has_equiv(self@, key) {
                                    let k = choose|k: T|
                                        #[trigger] opt_keys(peeled(curr)).contains(k)
                                            && same_key(k, key);
                                    if k == node.key {
                                        assert(false);
                                    } else if opt_keys(node.left).contains(k) {
                                        T::lemma_transitive(k, node.key, key);
                                        assert(false);
                                    }
                                    assert(opt_keys(node.right).contains(k));
                                }
                            }
                            proof {
                                assert forall|k: T| #[trigger] opt_keys(node.right).contains(k)
                                    implies opt_keys(peeled(curr)).contains(k)
                                        && node.key.precedes(k) by {
                                }
                            }
                            best = Some(node);
                            curr = node.right.as_ref();
                            proof {
                                assert(peeled(curr) == node.right);
                            }
                        }
                        Ordering::Equal => {
                            // an equivalent key is stored: return it
                            proof {
                                assert(self@.contains(node.key));
                                assert(same_key(node.key, key));
                            }
                            return Some(&node.key);
                        }
                    }
                }
            }
        }
    }

    /// Recursive rebuild-on-the-way-up insertion: descend to the slot for
    /// `key`, create a leaf there, then recompute heights and rebalance on
    /// the way back, returning the new root of this subtree.
    fn insert_recursive(node: Option<Box<Node<T>>>, key: T) -> (r: Option<Box<Node<T>>>)
        requires
            opt_wf(node),
            opt_height(node) < i16::MAX,
        ensures
            opt_wf(r),
            has_equiv(opt_keys(node), key) ==> r == node,
            !has_equiv(opt_keys(node), key) ==> opt_keys(r) =~= opt_keys(node).insert(key),
            opt_height(node) <= opt_height(r) <= opt_height(node) + 1,
        decreases node,
    {
        match node {
            None => {
                let r = Some(Box::new(Node::new(key)));
                proof {
                    assert(opt_keys(r) =~= opt_keys(node).insert(key));
                }
                r
            }
            Some(curr_box) => {
                let mut c: Node<T> = *curr_box;
                let ghost c0 = c;
                proof {
                    reveal_with_fuel(opt_height, 4);
                    reveal_with_fuel(opt_heights_ok, 4);
                    reveal_with_fuel(opt_balanced, 4);
                    reveal_with_fuel(opt_ordered, 4);
                    reveal_with_fuel(opt_keys, 4);
                    reveal_with_fuel(Node::spec_height, 4);
                    reveal_with_fuel(Node::spec_heights_ok, 4);
                    reveal_with_fuel(Node::spec_balanced, 4);
                    reveal_with_fuel(Node::spec_ordered, 4);
                    reveal_with_fuel(Node::spec_keys, 4);
                    lemma_opt_height_bounds(c0.left);
                    lemma_opt_height_bounds(c0.right);
                }
                let o = key.cmp_keys(&c.key);
                match o {
                    Ordering::Less => {
                        proof {
                            // an equivalent key, if any, sits in the left subtree
                            if has_equiv(c0.spec_keys(), key) {
                                let k = choose|k: T|
                                    #[trigger] c0.spec_keys().contains(k) && same_key(k, key);
                                if opt_keys(c0.right).contains(k) {
                                    T::lemma_transitive(key, c0.key, k);
                                }
                                assert(opt_keys(c0.left).contains(k));
                            }
                            if has_equiv(opt_keys(c0.left), key) {
                                let k = choose|k: T|
                                    #[trigger] opt_keys(c0.left).contains(k) && same_key(k, key);
                                assert(c0.spec_keys().contains(k));
                            }
                        }
                        let new_left = Self::insert_recursive(c.left.take(), key);
                        c.left = new_left;
                        c.update_heigh();
                        let balance_factor = c.balance_facator();
                        proof {
                            assert forall|k: T| #[trigger] opt_keys(c.left).contains(k)
                                implies k.precedes(c.key) by {
                                if !opt_keys(c0.left).contains(k) {
                                    assert(k == key);
                                }
                            }
                        }
                        if balance_factor == 2 {
                            let r = Some(Box::new(Self::rebalance_left_heavy(c)));
                            proof {
                                assert(opt_keys(r) =~= opt_keys(node).insert(key));
                            }
                            r
                        } else {
                            let r = Some(Box::new(c));
                            proof {
                                if has_equiv(opt_keys(node), key) {
                                    assert(c == c0);
                                    assert(r == node);
                                } else {
                                    assert(opt_keys(r) =~= opt_keys(node).insert(key));
                                }
                            }
                            r
                        }
                    }
                    Ordering::Greater => {
                        proof {
                            // an equivalent key, if any, sits in the right subtree
                            if has_equiv(c0.spec_keys(), key) {
                                let k = choose|k: T|
                                    #[trigger] c0.spec_keys().contains(k) && same_key(k, key);
                                if opt_keys(c0.left).contains(k) {
                                    T::lemma_transitive(k, c0.key, key);
                                }
                                assert(opt_keys(c0.right).contains(k));
                            }
                            if has_equiv(opt_keys(c0.right), key) {
                                let k = choose|k: T|
                                    #[trigger] opt_keys(c0.right).contains(k) && same_key(k, key);
                                assert(c0.spec_keys().contains(k));
                            }
                        }
                        let new_right = Self::insert_recursive(c.right.take(), key);
                        c.right = new_right;
                        c.update_heigh();
                        let balance_factor = c.balance_facator();
                        proof {
                            assert forall|k: T| #[trigger] opt_keys(c.right).contains(k)
                                implies c.key.precedes(k) by {
                                if !opt_keys(c0.right).contains(k) {
                                    assert(k == key);
                                }
                            }
                        }
                        if balance_factor == -2 {
                            let r = Some(Box::new(Self::rebalance_right_heavy(c)));
                            proof {
                                assert(opt_keys(r) =~= opt_keys(node).insert(key));
                            }
                            r
                        } else {
                            let r = Some(Box::new(c));
                            proof {
                                if has_equiv(opt_keys(node), key) {
                                    assert(c == c0);
                                    assert(r == node);
                                } else {
                                    assert(opt_keys(r) =~= opt_keys(node).insert(key));
                                }
                            }
                            r
                        }
                    }
                    Ordering::Equal => {
                        // duplicate: leave the subtree unchanged
                        c.update_heigh();
                        let r = Some(Box::new(c));
                        proof {
                            assert(c == c0);
                            assert(c0.spec_keys().contains(c0.key));
                            assert(has_equiv(opt_keys(node), key));
                            assert(r == node);
                        }
                        r
                    }
                }
            }
        }
    }

    /// Restores balance at a node whose left subtree is two levels taller
    /// than its right subtree: a single right rotation, or a left-then-right
    /// double rotation when the left child is strictly right-heavy.
    fn rebalance_left_heavy(tmp: Node<T>) -> (r: Node<T>)
        requires
            opt_wf(tmp.left),
            opt_wf(tmp.right),
            tmp.spec_balance() == 2,
            forall|k: T| #[trigger] opt_keys(tmp.left).contains(k) ==> k.precedes(tmp.key),
            forall|k: T| #[trigger] opt_keys(tmp.right).contains(k) ==> tmp.key.precedes(k),
            opt_height(tmp.left) < i16::MAX,
        ensures
            r.spec_ordered(),
            r.spec_balanced(),
            r.spec_heights_ok(),
            r.spec_keys() =~= tmp.spec_keys(),
            opt_height(tmp.left) <= r.spec_height() <= opt_height(tmp.left) + 1,
    {
        let mut c = tmp;
        proof {
            reveal_with_fuel(opt_height, 4);
            reveal_with_fuel(opt_heights_ok, 4);
            reveal_with_fuel(opt_balanced, 4);
            reveal_with_fuel(opt_ordered, 4);
            reveal_with_fuel(opt_keys, 4);
            reveal_with_fuel(Node::spec_height, 4);
            reveal_with_fuel(Node::spec_heights_ok, 4);
            reveal_with_fuel(Node::spec_balanced, 4);
            reveal_with_fuel(Node::spec_ordered, 4);
            reveal_with_fuel(Node::spec_keys, 4);
            lemma_opt_height_bounds(tmp.left);
            lemma_opt_height_bounds(tmp.right);
        }
        let mut lbox = c.left.take().unwrap();
        let ghost l0 = *lbox;
        proof {
            lemma_opt_height_bounds(l0.left);
            lemma_opt_height_bounds(l0.right);
            assert(opt_keys(tmp.left) == l0.spec_keys());
        }
        let left_left_height: i16 = match &lbox.left {
            None => -1,
            Some(n) => n.height,
        };
        let left_right_height: i16 = match &lbox.right {
            None => -1,
            Some(n) => n.height,
        };
        proof {
            assert(opt_height(tmp.left) == 1 + vstd::math::max(opt_height(l0.left), opt_height(l0.right)));
            assert(left_left_height as int == opt_height(l0.left));
            assert(left_right_height as int == opt_height(l0.right));
        }
        if left_left_height >= left_right_height {
            // left-left heavy: single right rotation
            c.left = lbox.right.take();
            proof {
                assert(c.left_cached_height() == opt_height(l0.right));
                assert(c.right_cached_height() == opt_height(tmp.right));
            }
            c.update_heigh();
            proof {
                assert(c.spec_heights_ok());
                assert forall|k: T| #[trigger] opt_keys(c.left).contains(k)
                    implies k.precedes(c.key) by {
                    assert(l0.spec_keys().contains(k));
                }
            }
            let ghost c1 = c;
            lbox.right = Some(Box::new(c));
            proof {
                assert(lbox.left_cached_height() == opt_height(l0.left));
                assert(lbox.right_cached_height() == c1.spec_height());
            }
            lbox.update_heigh();
            let r = *lbox;
            proof {
                assert(opt_keys(r.right) == c1.spec_keys());
                assert(c1.spec_keys() =~= opt_keys(l0.right).union(opt_keys(tmp.right)).insert(tmp.key));
                assert forall|k: T| #[trigger] opt_keys(r.right).contains(k)
                    implies r.key.precedes(k) by {
                    if opt_keys(l0.right).contains(k) {
                        // still below the old left child, on its right
                    } else if k == tmp.key {
                        assert(l0.spec_keys().contains(l0.key));
                    } else {
                        assert(opt_keys(tmp.right).contains(k));
                        assert(l0.spec_keys().contains(l0.key));
                        T::lemma_transitive(l0.key, tmp.key, k);
                    }
                }
                assert(r.spec_keys() =~= tmp.spec_keys());
            }
            r
        } else {
            // left-right heavy: rotate left at the left child, then right here
            let mut mbox = lbox.right.take().unwrap();
            let ghost m0 = *mbox;
            proof {
                lemma_opt_height_bounds(m0.left);
                lemma_opt_height_bounds(m0.right);
                assert(opt_keys(l0.right) == m0.spec_keys());
                assert(m0.spec_heights_ok() && m0.spec_balanced() && m0.spec_ordered());
                assert(opt_height(l0.right) == 1 + vstd::math::max(opt_height(m0.left), opt_height(m0.right)));
                assert(m0.spec_keys().contains(m0.key));
                assert(l0.spec_keys().contains(m0.key));
                assert(l0.spec_keys().contains(l0.key));
            }
            lbox.right = mbox.left.take();
            proof {
                assert(lbox.left_cached_height() == opt_height(l0.left));
                assert(lbox.right_cached_height() == opt_height(m0.left));
            }
            lbox.update_heigh();
            proof {
                assert forall|k: T| #[trigger] opt_keys(lbox.right).contains(k)
                    implies lbox.key.precedes(k) by {
                    assert(m0.spec_keys().contains(k));
                    assert(l0.spec_keys().contains(k));
                }
            }
            let ghost l1 = *lbox;
            c.left = mbox.right.take();
            proof {
                assert(c.left_cached_height() == opt_height(m0.right));
                assert(c.right_cached_height() == opt_height(tmp.right));
            }
            c.update_heigh();
            proof {
                assert forall|k: T| #[trigger] opt_keys(c.left).contains(k)
                    implies k.precedes(c.key) by {
                    assert(m0.spec_keys().contains(k));
                    assert(l0.spec_keys().contains(k));
                }
            }
            let ghost c1 = c;
            mbox.left = Some(lbox);
            mbox.right = Some(Box::new(c));
            mbox.update_heigh();
            let r = *mbox;
            proof {
                assert(opt_keys(r.left) == l1.spec_keys());
                assert(opt_keys(r.right) == c1.spec_keys());
                assert(l1.spec_keys() =~= opt_keys(l0.left).union(opt_keys(m0.left)).insert(l0.key));
                assert(c1.spec_keys() =~= opt_keys(m0.right).union(opt_keys(tmp.right)).insert(tmp.key));
                assert forall|k: T| #[trigger] opt_keys(r.left).contains(k)
                    implies k.precedes(r.key) by {
                    if opt_keys(l0.left).contains(k) {
                        assert(k.precedes(l0.key));
                        T::lemma_transitive(k, l0.key, m0.key);
                    } else if k == l0.key {
                        // the old left child's key precedes the lifted key
                    } else {
                        assert(opt_keys(m0.left).contains(k));
                    }
                }
                assert forall|k: T| #[trigger] opt_keys(r.right).contains(k)
                    implies r.key.precedes(k) by {
                    if opt_keys(m0.right).contains(k) {
                        // directly below the lifted node
                    } else if k == tmp.key {
                        // the old root follows the lifted key
                    } else {
                        assert(opt_keys(tmp.right).contains(k));
                        T::lemma_transitive(m0.key, tmp.key, k);
                    }
                }
                assert(r.spec_keys() =~= tmp.spec_keys());
            }
            r
        }
    }

    /// Restores balance at a node whose right subtree is two levels taller
    /// than its left subtree: a single left rotation, or a right-then-left
    /// double rotation when the right child is strictly left-heavy.
    fn rebalance_right_heavy(tmp: Node<T>) -> (r: Node<T>)
        requires
            opt_wf(tmp.left),
            opt_wf(tmp.right),
            tmp.spec_balance() == -2,
            forall|k: T| #[trigger] opt_keys(tmp.left).contains(k) ==> k.precedes(tmp.key),
            forall|k: T| #[trigger] opt_keys(tmp.right).contains(k) ==> tmp.key.precedes(k),
            opt_height(tmp.right) < i16::MAX,
        ensures
            r.spec_ordered(),
            r.spec_balanced(),
            r.spec_heights_ok(),
            r.spec_keys() =~= tmp.spec_keys(),
            opt_height(tmp.right) <= r.spec_height() <= opt_height(tmp.right) + 1,
    {
        let mut c = tmp;
        proof {
            reveal_with_fuel(opt_height, 4);
            reveal_with_fuel(opt_heights_ok, 4);
            reveal_with_fuel(opt_balanced, 4);
            reveal_with_fuel(opt_ordered, 4);
            reveal_with_fuel(opt_keys, 4);
            reveal_with_fuel(Node::spec_height, 4);
            reveal_with_fuel(Node::spec_heights_ok, 4);
            reveal_with_fuel(Node::spec_balanced, 4);
            reveal_with_fuel(Node::spec_ordered, 4);
            reveal_with_fuel(Node::spec_keys, 4);
            lemma_opt_height_bounds(tmp.left);
            lemma_opt_height_bounds(tmp.right);
        }
        let mut rbox = c.right.take().unwrap();
        let ghost r0 = *rbox;
        proof {
            lemma_opt_height_bounds(r0.left);
            lemma_opt_height_bounds(r0.right);
            assert(opt_keys(tmp.right) == r0.spec_keys());
        }
        let right_right_height: i16 = match &rbox.right {
            None => -1,
            Some(n) => n.height,
        };
        let right_left_height: i16 = match &rbox.left {
            None => -1,
            Some(n) => n.height,
        };
        proof {
            assert(opt_height(tmp.right) == 1 + vstd::math::max(opt_height(r0.left), opt_height(r0.right)));
            assert(right_right_height as int == opt_height(r0.right));
            assert(right_left_height as int == opt_height(r0.left));
        }
        if right_right_height >= right_left_height {
            // right-right heavy: single left rotation
            c.right = rbox.left.take();
            proof {
                assert(c.right_cached_height() == opt_height(r0.left));
                assert(c.left_cached_height() == opt_height(tmp.left));
            }
            c.update_heigh();
            proof {
                assert(c.spec_heights_ok());
                assert forall|k: T| #[trigger] opt_keys(c.right).contains(k)
                    implies c.key.precedes(k) by {
                    assert(r0.spec_keys().contains(k));
                }
            }
            let ghost c1 = c;
            rbox.left = Some(Box::new(c));
            proof {
                assert(rbox.right_cached_height() == opt_height(r0.right));
                assert(rbox.left_cached_height() == c1.spec_height());
            }
            rbox.update_heigh();
            let r = *rbox;
            proof {
                assert(opt_keys(r.left) == c1.spec_keys());
                assert(c1.spec_keys() =~= opt_keys(tmp.left).union(opt_keys(r0.left)).insert(tmp.key));
                assert forall|k: T| #[trigger] opt_keys(r.left).contains(k)
                    implies k.precedes(r.key) by {
                    if opt_keys(r0.left).contains(k) {
                        // still below the old right child, on its left
                    } else if k == tmp.key {
                        assert(r0.spec_keys().contains(r0.key));
                    } else {
                        assert(opt_keys(tmp.left).contains(k));
                        assert(r0.spec_keys().contains(r0.key));
                        T::lemma_transitive(k, tmp.key, r0.key);
                    }
                }
                assert(r.spec_keys() =~= tmp.spec_keys());
            }
            r
        } else {
            // right-left heavy: rotate right at the right child, then left here
            let mut mbox = rbox.left.take().unwrap();
            let ghost m0 = *mbox;
            proof {
                lemma_opt_height_bounds(m0.left);
                lemma_opt_height_bounds(m0.right);
                assert(opt_keys(r0.left) == m0.spec_keys());
                assert(m0.spec_heights_ok() && m0.spec_balanced() && m0.spec_ordered());
                assert(opt_height(r0.left) == 1 + vstd::math::max(opt_height(m0.left), opt_height(m0.right)));
                assert(m0.spec_keys().contains(m0.key));
                assert(r0.spec_keys().contains(m0.key));
                assert(r0.spec_keys().contains(r0.key));
            }
            rbox.left = mbox.right.take();
            proof {
                assert(rbox.right_cached_height() == opt_height(r0.right));
                assert(rbox.left_cached_height() == opt_height(m0.right));
            }
            rbox.update_heigh();
            proof {
                assert forall|k: T| #[trigger] opt_keys(rbox.left).contains(k)
                    implies k.precedes(rbox.key) by {
                    assert(m0.spec_keys().contains(k));
                    assert(r0.spec_keys().contains(k));
                }
            }
            let ghost r1 = *rbox;
            c.right = mbox.left.take();
            proof {
                assert(c.right_cached_height() == opt_height(m0.left));
                assert(c.left_cached_height() == opt_height(tmp.left));
            }
            c.update_heigh();
            proof {
                assert forall|k: T| #[trigger] opt_keys(c.right).contains(k)
                    implies c.key.precedes(k) by {
                    assert(m0.spec_keys().contains(k));
                    assert(r0.spec_keys().contains(k));
                }
            }
            let ghost c1 = c;
            mbox.right = Some(rbox);
            mbox.left = Some(Box::new(c));
            mbox.update_heigh();
            let r = *mbox;
            proof {
                assert(opt_keys(r.right) == r1.spec_keys());
                assert(opt_keys(r.left) == c1.spec_keys());
                assert(r1.spec_keys() =~= opt_keys(m0.right).union(opt_keys(r0.right)).insert(r0.key));
                assert(c1.spec_keys() =~= opt_keys(tmp.left).union(opt_keys(m0.left)).insert(tmp.key));
                assert forall|k: T| #[trigger] opt_keys(r.right).contains(k)
                    implies r.key.precedes(k) by {
                    if opt_keys(r0.right).contains(k) {
                        assert(r0.key.precedes(k));
                        T::lemma_transitive(m0.key, r0.key, k);
                    } else if k == r0.key {
                        // the lifted key precedes the old right child's key
                    } else {
                        assert(opt_keys(m0.right).contains(k));
                    }
                }
                assert forall|k: T| #[trigger] opt_keys(r.left).contains(k)
                    implies k.precedes(r.key) by {
                    if opt_keys(m0.left).contains(k) {
                        // directly below the lifted node
                    } else if k == tmp.key {
                        // the old root precedes the lifted key
                    } else {
                        assert(opt_keys(tmp.left).contains(k));
                        T::lemma_transitive(k, tmp.key, m0.key);
                    }
                }
                assert(r.spec_keys() =~= tmp.spec_keys());
            }
            r
        }
    }
}

} // verus!
