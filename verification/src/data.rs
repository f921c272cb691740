//! What keys and values have to be: ordered, and to be had twice.

use vstd::prelude::*;

use crate::order;

verus! {

/// A type of keys or values.
pub trait Data: View + Sized {
    /// Whether a value comes before another.
    spec fn before(a: Self::V, b: Self::V) -> bool;

    /// Nothing comes before itself.
    proof fn irreflexive(a: Self::V)
        ensures
            !Self::before(a, a),
    ;

    /// What comes before something comes before all that is behind it.
    proof fn transitive(a: Self::V, b: Self::V, c: Self::V)
        requires
            Self::before(a, b),
            Self::before(b, c),
        ensures
            Self::before(a, c),
    ;

    /// Of two different values one comes before the other.
    proof fn total(a: Self::V, b: Self::V)
        ensures
            Self::before(a, b) || a == b || Self::before(b, a),
    ;

    /// Whether this value comes before another.
    fn precedes(&self, other: &Self) -> (r: bool)
        ensures
            r == Self::before(self@, other@),
    ;

    /// The same value again.
    fn duplicate(&self) -> (r: Self)
        ensures
            r@ == self@,
    ;
}

impl Data for u64 {
    open spec fn before(a: u64, b: u64) -> bool {
        a < b
    }

    proof fn irreflexive(a: u64) {
    }

    proof fn transitive(a: u64, b: u64, c: u64) {
    }

    proof fn total(a: u64, b: u64) {
    }

    fn precedes(&self, other: &Self) -> (r: bool) {
        *self < *other
    }

    fn duplicate(&self) -> (r: Self) {
        *self
    }
}

impl Data for String {
    open spec fn before(a: Seq<char>, b: Seq<char>) -> bool {
        order::text_before(a, b)
    }

    proof fn irreflexive(a: Seq<char>) {
        order::lemma_text_order(a, a, a);
    }

    proof fn transitive(a: Seq<char>, b: Seq<char>, c: Seq<char>) {
        order::lemma_text_order(a, b, c);
    }

    proof fn total(a: Seq<char>, b: Seq<char>) {
        order::lemma_text_order(a, b, b);
    }

    fn precedes(&self, other: &Self) -> (r: bool) {
        order::text_precedes(self.as_str(), other.as_str())
    }

    fn duplicate(&self) -> (r: Self) {
        self.clone()
    }
}

impl Data for Vec<u8> {
    open spec fn before(a: Seq<u8>, b: Seq<u8>) -> bool {
        order::bytes_before(a, b)
    }

    proof fn irreflexive(a: Seq<u8>) {
        order::lemma_bytes_order(a, a, a);
    }

    proof fn transitive(a: Seq<u8>, b: Seq<u8>, c: Seq<u8>) {
        order::lemma_bytes_order(a, b, c);
    }

    proof fn total(a: Seq<u8>, b: Seq<u8>) {
        order::lemma_bytes_order(a, b, b);
    }

    fn precedes(&self, other: &Self) -> (r: bool) {
        order::bytes_precede(self, other)
    }

    fn duplicate(&self) -> (r: Self) {
        let r = self.clone();
        assert(r@ =~= self@);
        r
    }
}

/// The order of pairs: by their first parts, and by their second where those are the same.
pub open spec fn pair_before<K: Data, V: Data>(a: (K::V, V::V), b: (K::V, V::V)) -> bool {
    K::before(a.0, b.0) || (a.0 == b.0 && V::before(a.1, b.1))
}

/// The order of pairs is one order of all of them.
pub proof fn lemma_pair_order<K: Data, V: Data>(a: (K::V, V::V), b: (K::V, V::V), c: (K::V, V::V))
    ensures
        !pair_before::<K, V>(a, a),
        pair_before::<K, V>(a, b) && pair_before::<K, V>(b, c) ==> pair_before::<K, V>(a, c),
        pair_before::<K, V>(a, b) || a == b || pair_before::<K, V>(b, a),
{
    K::irreflexive(a.0);
    V::irreflexive(a.1);
    if K::before(a.0, b.0) && K::before(b.0, c.0) {
        K::transitive(a.0, b.0, c.0);
    }
    if V::before(a.1, b.1) && V::before(b.1, c.1) {
        V::transitive(a.1, b.1, c.1);
    }
    K::total(a.0, b.0);
    V::total(a.1, b.1);
}

/// Whether a pair comes before another.
pub fn pair_precedes<K: Data, V: Data>(a: &(K, V), b: &(K, V)) -> (r: bool)
    ensures
        r == pair_before::<K, V>((a.0@, a.1@), (b.0@, b.1@)),
{
    if a.0.precedes(&b.0) {
        return true;
    }
    if b.0.precedes(&a.0) {
        proof {
            K::irreflexive(a.0@);
        }
        return false;
    }
    proof {
        K::total(a.0@, b.0@);
    }
    a.1.precedes(&b.1)
}

/// Numbers come in their order, texts and bytes in that of a dictionary, and pairs in the
/// order of their first parts and then of their second.
pub proof fn law_orders_of_data<K: Data, V: Data>(
    n: (u64, u64),
    t: (Seq<char>, Seq<char>),
    b: (Seq<u8>, Seq<u8>),
    p: ((K::V, V::V), (K::V, V::V)),
)
    ensures
        <u64 as Data>::before(n.0, n.1) <==> n.0 < n.1,
        <String as Data>::before(t.0, t.1) <==> order::text_before(t.0, t.1),
        <Vec<u8> as Data>::before(b.0, b.1) <==> order::bytes_before(b.0, b.1),
        pair_before::<K, V>(p.0, p.1) <==> K::before(p.0.0, p.1.0) || (p.0.0 == p.1.0
            && V::before(p.0.1, p.1.1)),
{
}

} // verus!
