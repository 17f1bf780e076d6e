//! Extracting the `k` items placed first, by either of two strategies: a
//! collector that never holds more than `k` items, and a full sort that is
//! cut off after `k`.
use crate::heap::MaxHeap;
use crate::order::{sorted, TotalOrder};
use crate::selection::{at_most, is_selection, is_top_k, lemma_top_k_bounds};
use crate::sort::quicksort;
use vstd::multiset::Multiset;
use vstd::prelude::*;

verus! {

/// While fewer than `k` items are kept, a new item is simply kept too.
proof fn lemma_keep_one_more<T: TotalOrder>(pool: Multiset<T>, k: nat, kept: Multiset<T>, x: T)
    requires
        is_selection(pool, k, kept),
        kept.len() < k,
    ensures
        is_selection(pool.insert(x), k, kept.insert(x)),
{
    broadcast use vstd::multiset::group_multiset_axioms;

    assert(pool.sub(kept).len() == 0);
    assert(pool.insert(x).sub(kept.insert(x)) =~= pool.sub(kept));
}

/// Once `k` items are kept, keeping a new one and then giving up an item
/// that none of those kept is placed after leaves a selection again.
proof fn lemma_keep_and_evict<T: TotalOrder>(
    pool: Multiset<T>,
    k: nat,
    kept: Multiset<T>,
    x: T,
    e: T,
)
    requires
        is_selection(pool, k, kept),
        kept.len() == k,
        kept.insert(x).contains(e),
        forall|z: T| kept.insert(x).contains(z) ==> z.le(&e),
    ensures
        is_selection(pool.insert(x), k, kept.insert(x).remove(e)),
{
    broadcast use vstd::multiset::group_multiset_axioms;

    let pool1 = pool.insert(x);
    let kept1 = kept.insert(x).remove(e);
    assert(kept.insert(x).len() == k + 1);
    assert(kept1.len() == k);
    assert(pool.sub(kept).len() == pool.len() - kept.len());
    assert forall|a: T, y: T|
        #![trigger kept1.contains(a), pool1.sub(kept1).contains(y)]
        kept1.contains(a) && pool1.sub(kept1).contains(y) implies a.le(&y) by {
        assert(kept.insert(x).contains(a));
        if pool.sub(kept).contains(y) {
            if kept.contains(a) {
            } else {
                assert(a == x);
                assert(kept.contains(e));
                T::lemma_transitive(&a, &e, &y);
            }
        } else {
            assert(y == e);
        }
    }
}

/// Giving up, of `k + 1` items, one that none of the others is placed after
/// selects the first `k` of them.
proof fn lemma_evict_selects<T: TotalOrder>(held: Multiset<T>, k: nat, e: T)
    requires
        held.len() == k + 1,
        held.contains(e),
        forall|z: T| held.contains(z) ==> z.le(&e),
    ensures
        is_selection(held, k, held.remove(e)),
{
    broadcast use vstd::multiset::group_multiset_axioms;

    let kept = held.remove(e);
    assert forall|a: T, y: T|
        #![trigger kept.contains(a), held.sub(kept).contains(y)]
        kept.contains(a) && held.sub(kept).contains(y) implies a.le(&y) by {
        assert(held.contains(a));
        assert(y == e);
    }
}

/// A collector that is offered items one at a time and keeps the `limit`
/// of them that the order places first. Between offers it holds no more
/// than `limit` items, and during an offer at most one more.
pub struct TopK<T: TotalOrder> {
    heap: MaxHeap<T>,
    limit: u8,
    seen: Ghost<Seq<T>>,
}

impl<T: TotalOrder> TopK<T> {
    #[verifier::type_invariant]
    spec fn keeps_a_selection(self) -> bool {
        is_selection(self.seen@.to_multiset(), self.limit as nat, self.heap@)
    }

    /// The items offered so far, in the order in which they came.
    pub closed spec fn seen(&self) -> Seq<T> {
        self.seen@
    }

    /// The most items that the collector keeps.
    pub closed spec fn limit(&self) -> nat {
        self.limit as nat
    }

    /// The items kept at present.
    pub closed spec fn kept(&self) -> Multiset<T> {
        self.heap@
    }

    /// A collector that keeps at most `k` items and has seen none.
    pub fn new(k: u8) -> (collector: Self)
        ensures
            collector.limit() == k,
            collector.seen() == Seq::<T>::empty(),
            collector.kept() == Multiset::<T>::empty(),
            is_selection(collector.seen().to_multiset(), collector.limit(), collector.kept()),
    {
        let heap = MaxHeap::new();
        proof {
            broadcast use vstd::multiset::group_multiset_axioms;

            vstd::seq_lib::to_multiset_len(Seq::<T>::empty());
        }
        TopK { heap, limit: k, seen: Ghost(Seq::empty()) }
    }

    /// Number of items kept at present: the limit, or the number of items
    /// offered so far if that is less.
    pub fn len(&self) -> (n: usize)
        ensures
            n == self.kept().len(),
            n == at_most(self.limit(), self.seen().len()),
    {
        proof {
            use_type_invariant(self);
            vstd::seq_lib::to_multiset_len(self.seen@);
        }
        self.heap.len()
    }

    /// Offers `item`. It is kept; if that makes one item too many, an item
    /// that none of those kept is placed after is given up at once. So what
    /// is kept afterwards is chosen among what was kept before and `item`,
    /// and it is a selection of everything offered so far.
    pub fn offer(&mut self, item: T)
        ensures
            final(self).limit() == old(self).limit(),
            final(self).seen() == old(self).seen().push(item),
            is_selection(old(self).kept().insert(item), final(self).limit(), final(self).kept()),
            is_selection(final(self).seen().to_multiset(), final(self).limit(), final(self).kept()),
    {
        proof {
            use_type_invariant(&*self);
        }
        let mut taken = TopK::new(self.limit);
        std::mem::swap(&mut taken, self);
        let TopK { heap, limit, seen } = taken;
        let mut heap = heap;
        let ghost pool = seen@.to_multiset();
        let ghost kept = heap@;
        proof {
            vstd::seq_lib::to_multiset_build(seen@, item);
        }
        heap.push(item);
        if heap.len() > limit as usize {
            let evicted = heap.pop();
            proof {
                lemma_keep_and_evict(pool, limit as nat, kept, item, evicted.unwrap());
                lemma_evict_selects(kept.insert(item), limit as nat, evicted.unwrap());
            }
        } else {
            proof {
                broadcast use vstd::multiset::group_multiset_axioms;

                lemma_keep_one_more(pool, limit as nat, kept, item);
                assert(kept.insert(item).sub(kept.insert(item)).len() == 0);
            }
        }
        *self = TopK { heap, limit, seen: Ghost(seen@.push(item)) };
    }

    /// Ends the collection and lists the items kept, in order.
    pub fn into_sorted_vec(self) -> (result: Vec<T>)
        ensures
            is_top_k(self.seen(), self.limit(), result@),
    {
        proof {
            use_type_invariant(&self);
        }
        let mut items = self.heap.into_vec();
        quicksort(items.as_mut_slice());
        items
    }
}

/// Lists, in order, the `k` items of `items` placed first, holding at most
/// `k + 1` of them at any time: each item in turn is offered to a collector
/// limited to `k`.
pub fn top_k_bounded<T: TotalOrder>(items: Vec<T>, k: u8) -> (result: Vec<T>)
    ensures
        is_top_k(items@, k as nat, result@),
        result@.len() == at_most(k as nat, items@.len()),
        k == 0 ==> result@.len() == 0,
        k >= items@.len() ==> result@.to_multiset() == items@.to_multiset(),
{
    let ghost all = items@;
    let mut collector = TopK::new(k);
    for item in it: items
        invariant
            it.seq() == all,
            collector.limit() == k,
            collector.seen() == all.take(it.index() as int),
    {
        assert(all.take(it.index() + 1) =~= all.take(it.index() as int).push(item));
        collector.offer(item);
    }
    assert(collector.seen() =~= all);
    let result = collector.into_sorted_vec();
    proof {
        lemma_top_k_bounds(all, k as nat, result@);
    }
    result
}

/// The first `k` items of a sorted arrangement of `input`, or all of them if
/// there are fewer, list the `k` items of `input` placed first.
proof fn lemma_sorted_prefix<T: TotalOrder>(input: Seq<T>, all: Seq<T>, k: nat)
    requires
        sorted(all),
        all.to_multiset() == input.to_multiset(),
    ensures
        is_top_k(input, k, all.take(at_most(k, all.len()) as int)),
{
    broadcast use vstd::multiset::group_multiset_axioms;

    let m = at_most(k, all.len()) as int;
    let (head, rest) = (all.take(m), all.skip(m));
    let (pool, kept) = (input.to_multiset(), head.to_multiset());
    assert(all =~= head + rest);
    vstd::seq_lib::lemma_multiset_commutative(head, rest);
    vstd::seq_lib::to_multiset_len(head);
    assert(pool.sub(kept) =~= rest.to_multiset());
    assert forall|x: T, y: T|
        #![trigger kept.contains(x), pool.sub(kept).contains(y)]
        kept.contains(x) && pool.sub(kept).contains(y) implies x.le(&y) by {
        vstd::seq_lib::to_multiset_contains(head, x);
        vstd::seq_lib::to_multiset_contains(rest, y);
        let i = choose|i: int| 0 <= i < head.len() && head[i] == x;
        let j = choose|j: int| 0 <= j < rest.len() && rest[j] == y;
        assert(all[i].le(&all[m + j]));
    }
    assert forall|i: int, j: int| 0 <= i <= j < head.len() implies #[trigger] head[i].le(
        &#[trigger] head[j],
    ) by {
        assert(all[i].le(&all[j]));
    }
}

/// Lists, in order, the `k` items of `items` placed first, by sorting all of
/// `items` and cutting the result off after `k`.
///
/// The whole input is held and sorted whatever `k` is, so this costs more
/// than [`top_k_bounded`] on a long input; it is meant for inputs known to
/// be short.
pub fn top_k_truncate<T: TotalOrder>(items: Vec<T>, k: u8) -> (result: Vec<T>)
    ensures
        is_top_k(items@, k as nat, result@),
        result@.len() == at_most(k as nat, items@.len()),
        k == 0 ==> result@.len() == 0,
        k >= items@.len() ==> result@.to_multiset() == items@.to_multiset(),
{
    let mut all = items;
    quicksort(all.as_mut_slice());
    let ghost whole = all@;
    all.truncate(k as usize);
    proof {
        lemma_sorted_prefix(items@, whole, k as nat);
        assert(all@ =~= whole.take(at_most(k as nat, whole.len()) as int));
        lemma_top_k_bounds(items@, k as nat, all@);
    }
    all
}

/// How the items placed first are found.
#[derive(Clone, Copy, Debug, PartialEq, Eq, Structural)]
pub enum Strategy {
    /// Keep at most `k` items while reading the input: for inputs of any
    /// length.
    Bounded,
    /// Sort the whole input, then cut it off: for inputs known to be short.
    Truncate,
}

/// Lists, in order, the `k` items of `items` placed first, found by the
/// strategy that the caller picks. Whichever is picked, the result is a
/// listing of the same kind, and any two such listings agree up to ties.
pub fn top_k<T: TotalOrder>(items: Vec<T>, k: u8, strategy: Strategy) -> (result: Vec<T>)
    ensures
        is_top_k(items@, k as nat, result@),
        result@.len() == at_most(k as nat, items@.len()),
        k == 0 ==> result@.len() == 0,
        k >= items@.len() ==> result@.to_multiset() == items@.to_multiset(),
{
    match strategy {
        Strategy::Bounded => top_k_bounded(items, k),
        Strategy::Truncate => top_k_truncate(items, k),
    }
}

} // verus!
