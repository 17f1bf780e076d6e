//! Total preorders: the ordering every ranked item carries, and what it
//! means for a sequence to be arranged by it.
use vstd::prelude::*;

verus! {

/// Outcome of a three-way comparison of two items.
#[derive(Clone, Copy, Debug, PartialEq, Eq, Structural)]
pub enum Order {
    /// The first item is placed strictly before the second.
    Less,
    /// Neither item is placed before the other.
    Equal,
    /// The first item is placed strictly after the second.
    Greater,
}

/// A total preorder with an executable three-way comparison.
///
/// `a.le(b)` reads "`a` is placed no later than `b`". Two items may each be
/// no later than the other without being the same value; such items are
/// tied, and any relative arrangement of them counts as ordered.
pub trait TotalOrder: Sized {
    /// Whether `self` is placed no later than `other`.
    spec fn le(&self, other: &Self) -> bool;

    /// Any two items are comparable.
    proof fn lemma_total(a: &Self, b: &Self)
        ensures
            a.le(b) || b.le(a),
    ;

    /// Being placed no later is transitive.
    proof fn lemma_transitive(a: &Self, b: &Self, c: &Self)
        requires
            a.le(b),
            b.le(c),
        ensures
            a.le(c),
    ;

    /// Compares `self` with `other`: `Less` exactly when `self` is placed
    /// strictly before `other`, `Greater` exactly when it is placed strictly
    /// after, `Equal` when the two are tied.
    fn compare(&self, other: &Self) -> (o: Order)
        ensures
            o is Less <==> !other.le(self),
            o is Greater <==> !self.le(other),
    ;
}

/// `a` is placed strictly before `b`.
pub open spec fn before<T: TotalOrder>(a: T, b: T) -> bool {
    !b.le(&a)
}

/// `a` and `b` are tied: neither is placed before the other.
pub open spec fn tied<T: TotalOrder>(a: T, b: T) -> bool {
    a.le(&b) && b.le(&a)
}

/// Every item of `s` is placed no later than the items that follow it.
pub open spec fn sorted<T: TotalOrder>(s: Seq<T>) -> bool {
    forall|i: int, j: int| 0 <= i <= j < s.len() ==> #[trigger] s[i].le(&#[trigger] s[j])
}

/// Every item of `s` is placed strictly before the items that follow it.
pub open spec fn strictly_sorted<T: TotalOrder>(s: Seq<T>) -> bool {
    forall|i: int, j: int| 0 <= i < j < s.len() ==> before(#[trigger] s[i], #[trigger] s[j])
}

/// No two positions of `s` hold tied items.
pub open spec fn tie_free<T: TotalOrder>(s: Seq<T>) -> bool {
    forall|i: int, j: int|
        0 <= i < s.len() && 0 <= j < s.len() && i != j ==> !tied(#[trigger] s[i], #[trigger] s[j])
}

/// `a` and `b` have the same length and hold tied items at every position.
pub open spec fn tied_pointwise<T: TotalOrder>(a: Seq<T>, b: Seq<T>) -> bool {
    &&& a.len() == b.len()
    &&& forall|i: int| 0 <= i < a.len() ==> tied(#[trigger] a[i], b[i])
}

/// Whether `a` is placed strictly before `b`.
pub fn is_before<T: TotalOrder>(a: &T, b: &T) -> (r: bool)
    ensures
        r == before(*a, *b),
{
    match a.compare(b) {
        Order::Less => true,
        _ => false,
    }
}

/// Every item is tied with itself.
pub proof fn lemma_reflexive<T: TotalOrder>(a: T)
    ensures
        a.le(&a),
{
    T::lemma_total(&a, &a);
}

/// Being placed strictly before is a strict weak ordering: nothing is
/// placed before itself, being placed before is transitive, and so is being
/// tied.
pub proof fn lemma_strict_weak_order<T: TotalOrder>(a: T, b: T, c: T)
    ensures
        !before(a, a),
        before(a, b) ==> !before(b, a),
        before(a, b) && before(b, c) ==> before(a, c),
        tied(a, b) && tied(b, c) ==> tied(a, c),
        before(a, b) || before(b, a) || tied(a, b),
{
    lemma_reflexive(a);
    T::lemma_total(&a, &b);
    T::lemma_total(&b, &c);
    if b.le(&a) && c.le(&b) {
        T::lemma_transitive(&c, &b, &a);
    }
    if a.le(&b) && b.le(&c) {
        T::lemma_transitive(&a, &b, &c);
    }
    if before(a, b) && before(b, c) && c.le(&a) {
        T::lemma_transitive(&c, &a, &b);
    }
}

} // verus!
