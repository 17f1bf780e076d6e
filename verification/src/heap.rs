//! A priority structure: a binary heap laid out in a vector, from which the
//! item placed last by the order is the first to leave.
use crate::order::{is_before, lemma_reflexive, TotalOrder};
use crate::slices::{lemma_swapped_multiset, swapped};
use vstd::multiset::Multiset;
use vstd::prelude::*;

verus! {

/// Position of the parent of the item at position `i > 0`.
spec fn parent(i: int) -> int {
    (i - 1) / 2
}

/// The item at position `i` is placed no later than its parent.
spec fn under_parent<T: TotalOrder>(s: Seq<T>, i: int) -> bool {
    s[i].le(&s[parent(i)])
}

/// Every item but the first is placed no later than its parent.
spec fn is_heap<T: TotalOrder>(s: Seq<T>) -> bool {
    forall|i: int| 0 < i < s.len() ==> #[trigger] under_parent(s, i)
}

/// `s` is heap-ordered but for the item at `pos`, which may be placed after
/// its parent; the children of `pos` already respect that parent.
spec fn heap_but_above<T: TotalOrder>(s: Seq<T>, pos: int) -> bool {
    &&& forall|i: int| 0 < i < s.len() && i != pos ==> #[trigger] under_parent(s, i)
    &&& forall|c: int|
        0 < pos && 0 < c < s.len() && parent(c) == pos ==> (#[trigger] s[c]).le(&s[parent(pos)])
}

/// `s` is heap-ordered but for the item at `pos`, which may be placed before
/// its children; those children already respect the parent of `pos`.
spec fn heap_but_below<T: TotalOrder>(s: Seq<T>, pos: int) -> bool {
    &&& forall|i: int| 0 < i < s.len() && parent(i) != pos ==> #[trigger] under_parent(s, i)
    &&& forall|c: int|
        0 < pos && 0 < c < s.len() && parent(c) == pos ==> (#[trigger] s[c]).le(&s[parent(pos)])
}

/// In a heap-ordered sequence no item is placed after the first.
proof fn lemma_root_is_last<T: TotalOrder>(s: Seq<T>, k: int)
    requires
        is_heap(s),
        0 <= k < s.len(),
    ensures
        s[k].le(&s[0]),
    decreases k,
{
    if k == 0 {
        lemma_reflexive(s[0]);
    } else {
        assert(under_parent(s, k));
        lemma_root_is_last(s, parent(k));
        T::lemma_transitive(&s[k], &s[parent(k)], &s[0]);
    }
}

/// Moves the item at `pos` toward the root until its parent is placed no
/// earlier than it.
fn sift_up<T: TotalOrder>(data: &mut Vec<T>, pos: usize)
    requires
        pos < old(data)@.len(),
        heap_but_above(old(data)@, pos as int),
    ensures
        is_heap(final(data)@),
        final(data)@.to_multiset() == old(data)@.to_multiset(),
{
    let mut i = pos;
    while i > 0
        invariant
            i < data@.len(),
            heap_but_above(data@, i as int),
            data@.to_multiset() == old(data)@.to_multiset(),
        ensures
            is_heap(data@),
        decreases i,
    {
        let up = (i - 1) / 2;
        if !is_before(&data[up], &data[i]) {
            break ;
        }
        proof {
            let s = data@;
            let t = swapped(s, up as int, i as int);
            lemma_swapped_multiset(s, up as int, i as int);
            T::lemma_total(&s[up as int], &s[i as int]);
            assert forall|k: int| 0 < k < t.len() && k != up implies #[trigger] under_parent(
                t,
                k,
            ) by {
                if k == i {
                } else if parent(k) == i {
                } else if parent(k) == up {
                    assert(under_parent(s, k));
                    T::lemma_transitive(&s[k], &s[up as int], &s[i as int]);
                } else {
                    assert(under_parent(s, k));
                }
            }
            assert forall|c: int|
                0 < up && 0 < c < t.len() && parent(c) == up implies (#[trigger] t[c]).le(
                &t[parent(up as int)],
            ) by {
                assert(under_parent(s, up as int));
                if c != i {
                    assert(under_parent(s, c));
                    T::lemma_transitive(&s[c], &s[up as int], &s[parent(up as int)]);
                }
            }
        }
        data.as_mut_slice().swap(up, i);
        i = up;
    }
}

/// Moves the item at `pos` away from the root until neither child is placed
/// after it.
fn sift_down<T: TotalOrder>(data: &mut Vec<T>, pos: usize)
    requires
        pos < old(data)@.len(),
        heap_but_below(old(data)@, pos as int),
    ensures
        is_heap(final(data)@),
        final(data)@.to_multiset() == old(data)@.to_multiset(),
{
    let len = data.len();
    let mut i = pos;
    while i < len / 2
        invariant
            i < len == data@.len(),
            heap_but_below(data@, i as int),
            data@.to_multiset() == old(data)@.to_multiset(),
        ensures
            is_heap(data@),
        decreases len - i,
    {
        let left = 2 * i + 1;
        let right = left + 1;
        let child = if right < len && is_before(&data[left], &data[right]) {
            right
        } else {
            left
        };
        let ghost s = data@;
        proof {
            T::lemma_total(&s[left as int], &s[child as int]);
            if right < len {
                T::lemma_total(&s[right as int], &s[child as int]);
            }
        }
        if !is_before(&data[i], &data[child]) {
            proof {
                assert forall|k: int| 0 < k < s.len() implies #[trigger] under_parent(s, k) by {
                    if parent(k) == i {
                        T::lemma_transitive(&s[k], &s[child as int], &s[i as int]);
                    }
                }
            }
            break ;
        }
        proof {
            let t = swapped(s, i as int, child as int);
            lemma_swapped_multiset(s, i as int, child as int);
            T::lemma_total(&s[i as int], &s[child as int]);
            assert forall|k: int| 0 < k < t.len() && parent(k) != child implies #[trigger] under_parent(
                t,
                k,
            ) by {
                if k == child {
                } else if parent(k) == i {
                } else if k == i {
                    assert(s[child as int].le(&s[parent(i as int)]));
                } else {
                    assert(under_parent(s, k));
                }
            }
            assert forall|c: int|
                0 < c < t.len() && parent(c) == child implies (#[trigger] t[c]).le(
                &t[parent(child as int)],
            ) by {
                assert(under_parent(s, c));
            }
        }
        data.as_mut_slice().swap(i, child);
        i = child;
    }
}

/// Adds `item` to the heap-ordered vector `data`.
fn heap_insert<T: TotalOrder>(data: &mut Vec<T>, item: T)
    requires
        is_heap(old(data)@),
    ensures
        is_heap(final(data)@),
        final(data)@.to_multiset() == old(data)@.to_multiset().insert(item),
{
    let last = data.len();
    data.push(item);
    proof {
        let s = old(data)@;
        vstd::seq_lib::to_multiset_build(s, item);
        assert forall|i: int| 0 < i < data@.len() && i != last implies #[trigger] under_parent(
            data@,
            i,
        ) by {
            assert(under_parent(s, i));
        }
    }
    sift_up(data, last);
}

/// Takes from the heap-ordered vector `data` an item that none of the others
/// is placed after, if there is any item at all.
fn heap_remove<T: TotalOrder>(data: &mut Vec<T>) -> (top: Option<T>)
    requires
        is_heap(old(data)@),
    ensures
        is_heap(final(data)@),
        old(data)@.len() == 0 ==> top is None && final(data)@ == old(data)@,
        old(data)@.len() > 0 ==> top == Some(old(data)@[0]) && final(data)@.to_multiset()
            == old(data)@.to_multiset().remove(old(data)@[0]),
{
    let len = data.len();
    if len == 0 {
        return None;
    }
    let ghost s = data@;
    data.as_mut_slice().swap(0, len - 1);
    let top = data.pop();
    proof {
        let t = swapped(s, 0, len - 1);
        lemma_swapped_multiset(s, 0, len - 1);
        assert(data@ =~= t.remove(len - 1));
        vstd::seq_lib::to_multiset_remove(t, len - 1);
        assert forall|i: int| 0 < i < data@.len() && parent(i) != 0 implies #[trigger] under_parent(
            data@,
            i,
        ) by {
            assert(under_parent(s, i));
        }
    }
    if len > 1 {
        sift_down(data, 0);
    }
    top
}

/// A priority structure over totally ordered items. Items enter in any
/// order; the one that leaves is always one that no other item still held
/// is placed after.
pub struct MaxHeap<T: TotalOrder> {
    data: Vec<T>,
}

impl<T: TotalOrder> View for MaxHeap<T> {
    type V = Multiset<T>;

    /// The items held, each as often as it was added and not yet removed.
    closed spec fn view(&self) -> Multiset<T> {
        self.data@.to_multiset()
    }
}

impl<T: TotalOrder> MaxHeap<T> {
    #[verifier::type_invariant]
    spec fn heap_ordered(self) -> bool {
        is_heap(self.data@)
    }

    /// An empty structure.
    pub fn new() -> (heap: Self)
        ensures
            heap@ == Multiset::<T>::empty(),
    {
        let heap = MaxHeap { data: Vec::new() };
        proof {
            vstd::seq_lib::to_multiset_len(heap.data@);
        }
        heap
    }

    /// Number of items held.
    pub fn len(&self) -> (n: usize)
        ensures
            n == self@.len(),
    {
        proof {
            vstd::seq_lib::to_multiset_len(self.data@);
        }
        self.data.len()
    }

    /// Adds `item`.
    pub fn push(&mut self, item: T)
        ensures
            final(self)@ == old(self)@.insert(item),
    {
        proof {
            use_type_invariant(&*self);
        }
        let mut data = Vec::new();
        std::mem::swap(&mut data, &mut self.data);
        heap_insert(&mut data, item);
        self.data = data;
    }

    /// Removes and returns an item that no other item held is placed after,
    /// or returns `None` when nothing is held.
    pub fn pop(&mut self) -> (top: Option<T>)
        ensures
            old(self)@.len() == 0 ==> top is None && final(self)@ == old(self)@,
            old(self)@.len() > 0 ==> top is Some && old(self)@.contains(top.unwrap())
                && final(self)@ == old(self)@.remove(top.unwrap()),
            forall|x: T| top is Some && old(self)@.contains(x) ==> x.le(&top.unwrap()),
    {
        proof {
            use_type_invariant(&*self);
            let s = self.data@;
            vstd::seq_lib::to_multiset_len(s);
            assert forall|x: T| s.len() > 0 && s.to_multiset().contains(x) implies x.le(&s[0]) by {
                vstd::seq_lib::to_multiset_contains(s, x);
                let k = choose|k: int| 0 <= k < s.len() && s[k] == x;
                lemma_root_is_last(s, k);
            }
            if s.len() > 0 {
                vstd::seq_lib::to_multiset_contains(s, s[0]);
                assert(s.contains(s[0]));
            }
        }
        let mut data = Vec::new();
        std::mem::swap(&mut data, &mut self.data);
        let top = heap_remove(&mut data);
        self.data = data;
        top
    }

    /// Hands over the items held, in no particular order.
    pub fn into_vec(self) -> (items: Vec<T>)
        ensures
            items@.to_multiset() == self@,
    {
        self.data
    }
}

} // verus!
