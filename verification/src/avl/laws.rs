//! Whole-tree laws: the AVL height bound, and the in-order view of a
//! well-formed tree as a strictly ascending listing of its keys.

use vstd::prelude::*;
use vstd::set_lib::lemma_set_disjoint_lens;
use crate::order::OrderedKey;
use crate::avl::node::Node;
use crate::avl::node::lemma_opt_height_bounds;
use crate::avl::node::opt_height;
use crate::avl::node::opt_keys;
use crate::avl::node::opt_ordered;
use crate::avl::node::opt_wf;
use crate::avl::tree::Tree;

verus! {

/// The Fibonacci numbers.
pub open spec fn fib(n: nat) -> nat
    decreases n,
{
    if n == 0 {
        0
    } else if n == 1 {
        1
    } else {
        fib((n - 1) as nat) + fib((n - 2) as nat)
    }
}

/// The Fibonacci numbers never decrease.
pub proof fn lemma_fib_monotonic(i: nat, j: nat)
    requires
        i <= j,
    ensures
        fib(i) <= fib(j),
    decreases j - i,
{
    if i < j {
        if j >= 2 {
            lemma_fib_monotonic(i, (j - 1) as nat);
        }
    }
}

/// In a BST-ordered node, the two subtrees store disjoint key sets and
/// neither stores the node's own key.
proof fn lemma_subtree_keys_disjoint<T: OrderedKey>(n: Node<T>)
    requires
        n.spec_ordered(),
    ensures
        opt_keys(n.left).disjoint(opt_keys(n.right)),
        !opt_keys(n.left).contains(n.key),
        !opt_keys(n.right).contains(n.key),
{
    assert forall|k: T| #[trigger] opt_keys(n.left).contains(k)
        implies !opt_keys(n.right).contains(k) by {
        if opt_keys(n.right).contains(k) {
            T::lemma_transitive(k, n.key, k);
            T::lemma_asymmetric(k, k);
        }
    }
    if opt_keys(n.left).contains(n.key) {
        T::lemma_asymmetric(n.key, n.key);
    }
    if opt_keys(n.right).contains(n.key) {
        T::lemma_asymmetric(n.key, n.key);
    }
}

/// A well-formed subtree of height `h` stores at least `fib(h + 3) - 1`
/// keys: the minimal AVL tree sizes are shifted Fibonacci numbers.
proof fn lemma_min_keys<T: OrderedKey>(node: Option<Box<Node<T>>>)
    requires
        opt_wf(node),
    ensures
        opt_keys(node).finite(),
        fib((opt_height(node) + 3) as nat) <= opt_keys(node).len() + 1,
    decreases node,
{
    lemma_opt_height_bounds(node);
    match node {
        None => {
            assert(fib(0) == 0);
            assert(fib(1) == 1);
            assert(fib(2) == 1);
        }
        Some(n) => {
            lemma_min_keys(n.left);
            lemma_min_keys(n.right);
            lemma_opt_height_bounds(n.left);
            lemma_opt_height_bounds(n.right);
            lemma_subtree_keys_disjoint(*n);
            lemma_set_disjoint_lens(opt_keys(n.left), opt_keys(n.right));
            let hl = opt_height(n.left);
            let hr = opt_height(n.right);
            let h = opt_height(node);
            assert(h == 1 + vstd::math::max(hl, hr));
            assert(opt_keys(node).len() == opt_keys(n.left).len() + opt_keys(n.right).len() + 1);
            if hl >= hr {
                assert(hl == h - 1);
                lemma_fib_monotonic((h + 1) as nat, (hr + 3) as nat);
                assert(fib((h + 3) as nat) == fib((h + 2) as nat) + fib((h + 1) as nat));
            } else {
                assert(hr == h - 1);
                lemma_fib_monotonic((h + 1) as nat, (hl + 3) as nat);
                assert(fib((h + 3) as nat) == fib((h + 2) as nat) + fib((h + 1) as nat));
            }
        }
    }
}

/// In-order listing of the keys of an optional subtree.
pub open spec fn opt_in_order<T>(node: Option<Box<Node<T>>>) -> Seq<T>
    decreases node,
{
    match node {
        None => Seq::empty(),
        Some(n) => opt_in_order(n.left) + seq![n.key] + opt_in_order(n.right),
    }
}

/// The sequence is strictly ascending in the key order.
pub open spec fn strictly_ascending<T: OrderedKey>(s: Seq<T>) -> bool {
    forall|i: int, j: int| 0 <= i < j < s.len() ==> #[trigger] s[i].precedes(#[trigger] s[j])
}

/// The in-order listing of a BST-ordered subtree is strictly ascending,
/// lists exactly the stored keys, and lists each key once.
proof fn lemma_in_order_node<T: OrderedKey>(node: Option<Box<Node<T>>>)
    requires
        opt_ordered(node),
    ensures
        opt_keys(node).finite(),
        forall|k: T| opt_in_order(node).contains(k) <==> #[trigger] opt_keys(node).contains(k),
        opt_in_order(node).len() == opt_keys(node).len(),
        strictly_ascending(opt_in_order(node)),
    decreases node,
{
    match node {
        None => {
        }
        Some(n) => {
            lemma_in_order_node(n.left);
            lemma_in_order_node(n.right);
            lemma_subtree_keys_disjoint(*n);
            lemma_set_disjoint_lens(opt_keys(n.left), opt_keys(n.right));
            let left_run = opt_in_order(n.left);
            let right_run = opt_in_order(n.right);
            let s = opt_in_order(node);
            assert(s == left_run + seq![n.key] + right_run);
            assert(opt_keys(node).len() == opt_keys(n.left).len() + opt_keys(n.right).len() + 1);

            assert forall|k: T| s.contains(k) implies #[trigger] opt_keys(node).contains(k) by {
                let i = choose|i: int| 0 <= i < s.len() && s[i] == k;
                if i < left_run.len() {
                    assert(left_run[i] == k);
                    assert(left_run.contains(k));
                } else if i == left_run.len() {
                    assert(k == n.key);
                } else {
                    assert(right_run[i - left_run.len() - 1] == k);
                    assert(right_run.contains(k));
                }
            }
            assert forall|k: T| #[trigger] opt_keys(node).contains(k) implies s.contains(k) by {
                if opt_keys(n.left).contains(k) {
                    let i = choose|i: int| 0 <= i < left_run.len() && left_run[i] == k;
                    assert(s[i] == k);
                } else if opt_keys(n.right).contains(k) {
                    let i = choose|i: int| 0 <= i < right_run.len() && right_run[i] == k;
                    assert(s[left_run.len() + 1 + i] == k);
                } else {
                    assert(s[left_run.len() as int] == k);
                }
            }

            assert forall|i: int, j: int| 0 <= i < j < s.len()
                implies #[trigger] s[i].precedes(#[trigger] s[j]) by {
                let li = left_run.len() as int;
                if i < li {
                    assert(left_run.contains(s[i]));
                    assert(opt_keys(n.left).contains(s[i]));
                }
                if j > li {
                    assert(right_run[j - li - 1] == s[j]);
                    assert(right_run.contains(s[j]));
                    assert(opt_keys(n.right).contains(s[j]));
                }
                if j < li {
                    // both inside the left run
                } else if i > li {
                    // both inside the right run
                } else if i < li && j == li {
                    // left key against the node's key
                } else if i == li && j > li {
                    // the node's key against a right key
                } else {
                    // a left key against a right key
                    T::lemma_transitive(s[i], n.key, s[j]);
                }
            }
        }
    }
}

impl<T: OrderedKey> Tree<T> {
    /// The stored keys, listed in BST in-order.
    pub open spec fn in_order(self) -> Seq<T> {
        opt_in_order(self.root)
    }
}

/// AVL height bound: a well-formed tree of height `h` stores at least
/// `fib(h + 3) - 1` keys. This is the exact integer form of the classical
/// bound `h <= 1.44 * log2(n + 2) - 1`: the minimal key counts grow
/// exponentially with the height.
pub proof fn lemma_height_bound<T: OrderedKey>(t: Tree<T>)
    requires
        t.well_formed(),
    ensures
        t@.finite(),
        fib((t.height() + 3) as nat) <= t@.len() + 1,
{
    lemma_min_keys(t.root);
}

/// Set semantics of the in-order view: for a well-formed tree, the
/// in-order listing is strictly ascending in the key order and lists
/// exactly the stored keys, each exactly once.
pub proof fn lemma_in_order_sorted<T: OrderedKey>(t: Tree<T>)
    requires
        t.well_formed(),
    ensures
        strictly_ascending(t.in_order()),
        forall|k: T| t.in_order().contains(k) <==> #[trigger] t@.contains(k),
        t.in_order().len() == t@.len(),
{
    lemma_in_order_node(t.root);
}

} // verus!
