//! What it means to select the first `k` items of a collection under a
//! total order, and why the selection is unique up to ties.
use crate::order::{sorted, tie_free, tied, tied_pointwise, TotalOrder};
use vstd::multiset::Multiset;
use vstd::prelude::*;

verus! {

/// The lesser of `k` and `n`.
pub open spec fn at_most(k: nat, n: nat) -> nat {
    if k <= n {
        k
    } else {
        n
    }
}

/// `kept` is a choice of the `k` items of `pool` that the order places
/// first: it is drawn from `pool`, holds `k` items or all of `pool` if that
/// is fewer, and no item left out is placed before an item kept.
pub open spec fn is_selection<T: TotalOrder>(pool: Multiset<T>, k: nat, kept: Multiset<T>) -> bool {
    &&& kept.subset_of(pool)
    &&& kept.len() == at_most(k, pool.len())
    &&& forall|x: T, y: T|
        #![trigger kept.contains(x), pool.sub(kept).contains(y)]
        kept.contains(x) && pool.sub(kept).contains(y) ==> x.le(&y)
}

/// `result` lists, in order, a choice of the `k` items of `input` that the
/// order places first.
pub open spec fn is_top_k<T: TotalOrder>(input: Seq<T>, k: nat, result: Seq<T>) -> bool {
    &&& sorted(result)
    &&& is_selection(input.to_multiset(), k, result.to_multiset())
}

/// A collection is what was kept of it together with what was left out.
proof fn lemma_kept_and_left<T>(pool: Multiset<T>, kept: Multiset<T>)
    requires
        kept.subset_of(pool),
    ensures
        pool == kept.add(pool.sub(kept)),
{
    broadcast use vstd::multiset::group_multiset_axioms;

    assert(pool =~= kept.add(pool.sub(kept)));
}

/// Filtering two collections and joining them is filtering their join.
proof fn lemma_filter_add<T>(x: Multiset<T>, y: Multiset<T>, p: spec_fn(T) -> bool)
    ensures
        x.add(y).filter(p) == x.filter(p).add(y.filter(p)),
{
    broadcast use vstd::multiset::group_multiset_axioms;

    assert(x.add(y).filter(p) =~= x.filter(p).add(y.filter(p)));
}

/// A filter lets through no more than it is given.
proof fn lemma_filter_len<T>(m: Multiset<T>, p: spec_fn(T) -> bool)
    ensures
        m.filter(p).len() <= m.len(),
{
    broadcast use vstd::multiset::group_multiset_axioms;

    let q = |v: T| !p(v);
    assert(m =~= m.filter(p).add(m.filter(q)));
}

/// A filter that every item of `s` passes lets all of `s` through.
proof fn lemma_filter_all<T>(s: Seq<T>, p: spec_fn(T) -> bool)
    requires
        forall|j: int| 0 <= j < s.len() ==> p(#[trigger] s[j]),
    ensures
        s.to_multiset().filter(p).len() == s.len(),
{
    broadcast use vstd::multiset::group_multiset_axioms;

    let m = s.to_multiset();
    assert forall|v: T| m.filter(p).count(v) == m.count(v) by {
        if !p(v) {
            vstd::seq_lib::to_multiset_contains(s, v);
        }
    }
    assert(m.filter(p) =~= m);
    vstd::seq_lib::to_multiset_len(s);
}

/// A filter that no item of `s` passes lets nothing through.
proof fn lemma_filter_none<T>(s: Seq<T>, p: spec_fn(T) -> bool)
    requires
        forall|j: int| 0 <= j < s.len() ==> !p(#[trigger] s[j]),
    ensures
        s.to_multiset().filter(p).len() == 0,
{
    broadcast use vstd::multiset::group_multiset_axioms;

    let m = s.to_multiset();
    assert forall|v: T| m.filter(p).count(v) == 0 by {
        if p(v) {
            vstd::seq_lib::to_multiset_contains(s, v);
        }
    }
    assert(m.filter(p) =~= Multiset::empty());
}

/// Of two listings of the first `k` items of one input, the second never
/// holds, at any position, an item placed strictly after the first's.
proof fn lemma_never_later<T: TotalOrder>(input: Seq<T>, k: nat, a: Seq<T>, b: Seq<T>, i: int)
    requires
        is_top_k(input, k, a),
        is_top_k(input, k, b),
        0 <= i < a.len(),
    ensures
        a.len() == b.len(),
        b[i].le(&a[i]),
{
    broadcast use vstd::multiset::group_multiset_axioms;

    let pool = input.to_multiset();
    let (ma, mb) = (a.to_multiset(), b.to_multiset());
    vstd::seq_lib::to_multiset_len(a);
    vstd::seq_lib::to_multiset_len(b);
    if !b[i].le(&a[i]) {
        let y = b[i];
        // Count the items placed strictly before `y`.
        let p = |z: T| !y.le(&z);
        // `a` holds more than `i` of them: its first `i + 1` items.
        let (a_head, a_tail) = (a.take(i + 1), a.skip(i + 1));
        assert(a =~= a_head + a_tail);
        vstd::seq_lib::lemma_multiset_commutative(a_head, a_tail);
        assert forall|j: int| 0 <= j < a_head.len() implies p(#[trigger] a_head[j]) by {
            assert(a[j].le(&a[i]));
            if y.le(&a[j]) {
                T::lemma_transitive(&y, &a[j], &a[i]);
            }
        }
        lemma_filter_all(a_head, p);
        lemma_filter_add(a_head.to_multiset(), a_tail.to_multiset(), p);
        assert(ma.filter(p).len() >= i + 1);
        // `b` holds at most `i` of them: none from position `i` on.
        let (b_head, b_tail) = (b.take(i), b.skip(i));
        assert(b =~= b_head + b_tail);
        vstd::seq_lib::lemma_multiset_commutative(b_head, b_tail);
        assert forall|j: int| 0 <= j < b_tail.len() implies !p(#[trigger] b_tail[j]) by {
            assert(b[i].le(&b[i + j]));
        }
        lemma_filter_none(b_tail, p);
        lemma_filter_len(b_head.to_multiset(), p);
        vstd::seq_lib::to_multiset_len(b_head);
        lemma_filter_add(b_head.to_multiset(), b_tail.to_multiset(), p);
        assert(mb.filter(p).len() <= i);
        // Both are drawn from the input, so `b` left one of them out.
        lemma_kept_and_left(pool, ma);
        lemma_filter_add(ma, pool.sub(ma), p);
        lemma_kept_and_left(pool, mb);
        lemma_filter_add(mb, pool.sub(mb), p);
        let left = pool.sub(mb).filter(p);
        assert(pool.filter(p).len() == ma.filter(p).len() + pool.sub(ma).filter(p).len());
        assert(pool.filter(p).len() == mb.filter(p).len() + left.len());
        vstd::multiset::lemma_multiset_empty_len(left);
        let z = choose|z: T| 0 < left.count(z);
        // Yet `b` kept `y`, which is placed after it.
        vstd::seq_lib::to_multiset_contains(b, y);
        assert(b.contains(y));
        assert(mb.contains(y) && pool.sub(mb).contains(z));
        assert(y.le(&z));
    }
}

/// Two listings of the first `k` items of one input agree up to ties: they
/// have the same length and hold tied items at every position. Where no two
/// items of the input are tied, the two listings are the same.
///
/// So it does not matter how a listing was found: one made by keeping at
/// most `k` items while reading the input and one made by sorting the whole
/// input and cutting it off differ at most in which of several tied items
/// they name.
pub proof fn lemma_top_k_unique<T: TotalOrder>(input: Seq<T>, k: nat, a: Seq<T>, b: Seq<T>)
    requires
        is_top_k(input, k, a),
        is_top_k(input, k, b),
    ensures
        tied_pointwise(a, b),
        tie_free(input) ==> a == b,
{
    vstd::seq_lib::to_multiset_len(a);
    vstd::seq_lib::to_multiset_len(b);
    assert forall|i: int| 0 <= i < a.len() implies a[i].le(&b[i]) && b[i].le(&a[i]) by {
        lemma_never_later(input, k, a, b, i);
        lemma_never_later(input, k, b, a, i);
    }
    if tie_free(input) {
        assert forall|i: int| 0 <= i < a.len() implies a[i] == b[i] by {
            vstd::seq_lib::to_multiset_contains(a, a[i]);
            vstd::seq_lib::to_multiset_contains(b, b[i]);
            vstd::seq_lib::to_multiset_contains(input, a[i]);
            vstd::seq_lib::to_multiset_contains(input, b[i]);
            assert(a.contains(a[i]) && b.contains(b[i]));
            let m = choose|m: int| 0 <= m < input.len() && input[m] == a[i];
            let n = choose|n: int| 0 <= n < input.len() && input[n] == b[i];
            assert(tied(input[m], input[n]));
        }
        assert(a =~= b);
    }
}

/// At the bounds of `k`: a listing of the first `k` items holds `k` items,
/// or the whole input where that is shorter. So it is empty when `k` is
/// zero, and it is the whole input, sorted, when `k` reaches the input's
/// length.
pub proof fn lemma_top_k_bounds<T: TotalOrder>(input: Seq<T>, k: nat, result: Seq<T>)
    requires
        is_top_k(input, k, result),
    ensures
        result.len() == at_most(k, input.len()),
        k == 0 ==> result == Seq::<T>::empty(),
        k >= input.len() ==> sorted(result) && result.to_multiset() == input.to_multiset(),
{
    broadcast use vstd::multiset::group_multiset_axioms;

    vstd::seq_lib::to_multiset_len(input);
    vstd::seq_lib::to_multiset_len(result);
    if k == 0 {
        assert(result =~= Seq::<T>::empty());
    }
    if k >= input.len() {
        let (pool, kept) = (input.to_multiset(), result.to_multiset());
        lemma_kept_and_left(pool, kept);
        assert(pool.sub(kept).len() == 0);
        assert(pool =~= kept);
    }
}

} // verus!
