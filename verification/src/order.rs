//! The comparison interface that tree keys must provide.

use vstd::prelude::*;
use vstd::string::StrSliceExecFns;

verus! {

use core::cmp::Ordering;

/// A strict total order on the key type, given as a specification relation
/// `precedes` together with proofs of its order laws and an executable
/// three-way comparison that agrees with it.
///
/// Two keys neither of which precedes the other are *equivalent*; the tree
/// treats equivalent keys as the same key. For most types (integers)
/// equivalence coincides with equality; for `String` it means equal
/// character sequences.
pub trait OrderedKey: Sized {
    /// `self` comes strictly before `other` in the key order.
    spec fn precedes(self, other: Self) -> bool;

    /// The order is asymmetric (hence also irreflexive).
    proof fn lemma_asymmetric(a: Self, b: Self)
        requires
            a.precedes(b),
        ensures
            !b.precedes(a),
    ;

    /// The order is transitive.
    proof fn lemma_transitive(a: Self, b: Self, c: Self)
        requires
            a.precedes(b),
            b.precedes(c),
        ensures
            a.precedes(c),
    ;

    /// Executable three-way comparison, faithful to `precedes`.
    fn cmp_keys(&self, other: &Self) -> (o: Ordering)
        ensures
            o == Ordering::Less <==> (*self).precedes(*other),
            o == Ordering::Greater <==> (*other).precedes(*self),
    ;
}

/// `a` and `b` are equivalent under the key order.
pub open spec fn same_key<T: OrderedKey>(a: T, b: T) -> bool {
    !a.precedes(b) && !b.precedes(a)
}

/// Some element of `s` is equivalent to `key`.
pub open spec fn has_equiv<T: OrderedKey>(s: Set<T>, key: T) -> bool {
    exists|k: T| #[trigger] s.contains(k) && same_key(k, key)
}

/// Lexicographic order on character sequences: `a` comes first when it has
/// the smaller character at the first differing position, or when it is a
/// proper prefix of `b`.
pub open spec fn lex_lt(a: Seq<char>, b: Seq<char>) -> bool
    decreases a.len(),
{
    if b.len() == 0 {
        false
    } else if a.len() == 0 {
        true
    } else if a[0] != b[0] {
        (a[0] as u32) < (b[0] as u32)
    } else {
        lex_lt(a.drop_first(), b.drop_first())
    }
}

/// No sequence lexicographically precedes itself.
pub proof fn lemma_lex_lt_irreflexive(a: Seq<char>)
    ensures
        !lex_lt(a, a),
    decreases a.len(),
{
    if a.len() > 0 {
        lemma_lex_lt_irreflexive(a.drop_first());
    }
}

/// The lexicographic order is asymmetric.
pub proof fn lemma_lex_lt_asymmetric(a: Seq<char>, b: Seq<char>)
    requires
        lex_lt(a, b),
    ensures
        !lex_lt(b, a),
    decreases a.len(),
{
    if b.len() == 0 {
    } else if a.len() == 0 {
    } else if a[0] != b[0] {
    } else {
        lemma_lex_lt_asymmetric(a.drop_first(), b.drop_first());
    }
}

/// The lexicographic order is transitive.
pub proof fn lemma_lex_lt_transitive(a: Seq<char>, b: Seq<char>, c: Seq<char>)
    requires
        lex_lt(a, b),
        lex_lt(b, c),
    ensures
        lex_lt(a, c),
    decreases a.len(),
{
    if c.len() == 0 {
    } else if b.len() == 0 {
    } else if a.len() == 0 {
    } else if a[0] == b[0] && b[0] == c[0] {
        lemma_lex_lt_transitive(a.drop_first(), b.drop_first(), c.drop_first());
    }
}

/// Two sequences that agree strictly below position `i` are ordered by what
/// happens at `i`: `a` ends there while `b` goes on, or `a` has the smaller
/// character there.
proof fn lemma_lex_lt_at_position(a: Seq<char>, b: Seq<char>, i: int)
    requires
        0 <= i <= a.len(),
        i < b.len(),
        forall|j: int| 0 <= j < i ==> a[j] == b[j],
        i == a.len() || (a[i] as u32) < (b[i] as u32),
    ensures
        lex_lt(a, b),
    decreases i,
{
    if i > 0 {
        lemma_lex_lt_at_position(a.drop_first(), b.drop_first(), i - 1);
    }
}

/// Three-way comparison of two string slices, faithful to `lex_lt` on
/// their character sequences.
fn cmp_str(a: &str, b: &str) -> (o: Ordering)
    ensures
        o == Ordering::Less <==> lex_lt(a@, b@),
        o == Ordering::Greater <==> lex_lt(b@, a@),
{
    let a_len = a.unicode_len();
    let b_len = b.unicode_len();
    let mut i: usize = 0;
    loop
        invariant
            i <= a_len,
            i <= b_len,
            a_len == a@.len(),
            b_len == b@.len(),
            forall|j: int| 0 <= j < i ==> a@[j] == b@[j],
        decreases a_len - i,
    {
        if i == a_len && i == b_len {
            proof {
                assert(a@ =~= b@);
                lemma_lex_lt_irreflexive(a@);
            }
            return Ordering::Equal;
        }
        if i == a_len {
            proof {
                lemma_lex_lt_at_position(a@, b@, i as int);
                lemma_lex_lt_asymmetric(a@, b@);
            }
            return Ordering::Less;
        }
        if i == b_len {
            proof {
                lemma_lex_lt_at_position(b@, a@, i as int);
                lemma_lex_lt_asymmetric(b@, a@);
            }
            return Ordering::Greater;
        }
        let ca = a.get_char(i);
        let cb = b.get_char(i);
        if (ca as u32) < (cb as u32) {
            proof {
                lemma_lex_lt_at_position(a@, b@, i as int);
                lemma_lex_lt_asymmetric(a@, b@);
            }
            return Ordering::Less;
        }
        if (cb as u32) < (ca as u32) {
            proof {
                lemma_lex_lt_at_position(b@, a@, i as int);
                lemma_lex_lt_asymmetric(b@, a@);
            }
            return Ordering::Greater;
        }
        proof {
            assert(ca as u32 == cb as u32);
            assert(a@[i as int] == b@[i as int]);
        }
        i = i + 1;
    }
}

impl OrderedKey for String {
    /// Strings are ordered by their character sequences, lexicographically.
    open spec fn precedes(self, other: Self) -> bool {
        lex_lt(self@, other@)
    }

    proof fn lemma_asymmetric(a: Self, b: Self) {
        lemma_lex_lt_asymmetric(a@, b@);
    }

    proof fn lemma_transitive(a: Self, b: Self, c: Self) {
        lemma_lex_lt_transitive(a@, b@, c@);
    }

    fn cmp_keys(&self, other: &Self) -> (o: Ordering) {
        cmp_str(self.as_str(), other.as_str())
    }
}

impl OrderedKey for u8 {
    open spec fn precedes(self, other: Self) -> bool {
        self < other
    }

    proof fn lemma_asymmetric(a: Self, b: Self) {
    }

    proof fn lemma_transitive(a: Self, b: Self, c: Self) {
    }

    fn cmp_keys(&self, other: &Self) -> (o: Ordering) {
        if *self < *other {
            Ordering::Less
        } else if *other < *self {
            Ordering::Greater
        } else {
            Ordering::Equal
        }
    }
}

impl OrderedKey for u32 {
    open spec fn precedes(self, other: Self) -> bool {
        self < other
    }

    proof fn lemma_asymmetric(a: Self, b: Self) {
    }

    proof fn lemma_transitive(a: Self, b: Self, c: Self) {
    }

    fn cmp_keys(&self, other: &Self) -> (o: Ordering) {
        if *self < *other {
            Ordering::Less
        } else if *other < *self {
            Ordering::Greater
        } else {
            Ordering::Equal
        }
    }
}

impl OrderedKey for u64 {
    open spec fn precedes(self, other: Self) -> bool {
        self < other
    }

    proof fn lemma_asymmetric(a: Self, b: Self) {
    }

    proof fn lemma_transitive(a: Self, b: Self, c: Self) {
    }

    fn cmp_keys(&self, other: &Self) -> (o: Ordering) {
        if *self < *other {
            Ordering::Less
        } else if *other < *self {
            Ordering::Greater
        } else {
            Ordering::Equal
        }
    }
}

impl OrderedKey for i32 {
    open spec fn precedes(self, other: Self) -> bool {
        self < other
    }

    proof fn lemma_asymmetric(a: Self, b: Self) {
    }

    proof fn lemma_transitive(a: Self, b: Self, c: Self) {
    }

    fn cmp_keys(&self, other: &Self) -> (o: Ordering) {
        if *self < *other {
            Ordering::Less
        } else if *other < *self {
            Ordering::Greater
        } else {
            Ordering::Equal
        }
    }
}

impl OrderedKey for i64 {
    open spec fn precedes(self, other: Self) -> bool {
        self < other
    }

    proof fn lemma_asymmetric(a: Self, b: Self) {
    }

    proof fn lemma_transitive(a: Self, b: Self, c: Self) {
    }

    fn cmp_keys(&self, other: &Self) -> (o: Ordering) {
        if *self < *other {
            Ordering::Less
        } else if *other < *self {
            Ordering::Greater
        } else {
            Ordering::Equal
        }
    }
}

impl OrderedKey for usize {
    open spec fn precedes(self, other: Self) -> bool {
        self < other
    }

    proof fn lemma_asymmetric(a: Self, b: Self) {
    }

    proof fn lemma_transitive(a: Self, b: Self, c: Self) {
    }

    fn cmp_keys(&self, other: &Self) -> (o: Ordering) {
        if *self < *other {
            Ordering::Less
        } else if *other < *self {
            Ordering::Greater
        } else {
            Ordering::Equal
        }
    }
}

} // verus!
