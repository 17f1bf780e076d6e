//! In-place partition-exchange sort over any totally ordered items.
//!
//! The pivot is always the last item of the range at hand. Input that is
//! already in order, forward or backward, therefore costs time quadratic in
//! its length and recursion as deep as it is long; input in no particular
//! order costs `n log n` on average.
use crate::order::{
    before, is_before, lemma_reflexive, sorted, strictly_sorted, tie_free, tied, tied_pointwise,
    TotalOrder,
};
use crate::selection::{is_top_k, lemma_top_k_unique};
use crate::slices::{lemma_swapped_multiset, swapped};
use vstd::prelude::*;

verus! {

/// The items of `s` at positions `lo..hi` are in order.
pub open spec fn sorted_range<T: TotalOrder>(s: Seq<T>, lo: int, hi: int) -> bool {
    forall|a: int, b: int| lo <= a <= b < hi ==> #[trigger] s[a].le(&#[trigger] s[b])
}

/// `a` and `b` have the same length and agree at every position outside
/// `lo..hi`.
pub open spec fn same_outside<T>(a: Seq<T>, b: Seq<T>, lo: int, hi: int) -> bool {
    &&& a.len() == b.len()
    &&& forall|k: int| 0 <= k < a.len() && !(lo <= k < hi) ==> #[trigger] a[k] == b[k]
}

/// Positions `lo..hi` of `a` and of `b` hold the same items, each as often
/// in one as in the other.
pub open spec fn permuted_range<T>(a: Seq<T>, b: Seq<T>, lo: int, hi: int) -> bool {
    a.subrange(lo, hi).to_multiset() == b.subrange(lo, hi).to_multiset()
}

/// Exchanging two positions inside `lo..hi` rearranges that range and
/// touches nothing outside it.
proof fn lemma_swap_in_range<T>(s: Seq<T>, lo: int, hi: int, a: int, b: int)
    requires
        0 <= lo <= a < hi <= s.len(),
        lo <= b < hi,
    ensures
        permuted_range(swapped(s, a, b), s, lo, hi),
        same_outside(swapped(s, a, b), s, lo, hi),
{
    let r = s.subrange(lo, hi);
    assert(swapped(s, a, b).subrange(lo, hi) =~= swapped(r, a - lo, b - lo));
    lemma_swapped_multiset(r, a - lo, b - lo);
}

/// Rearranges `arr[lo..hi]` around its last item, the pivot, and returns the
/// pivot's final position `p`: afterwards nothing in `lo..p` is placed after
/// the pivot and nothing in `p + 1..hi` is placed before it.
///
/// Scans upward from `lo` past items strictly before the pivot and downward
/// from `hi - 2` past items strictly after it, exchanging the two items at
/// which the scans stop, until the scans meet; the pivot is then exchanged
/// into the meeting position. Items tied with the pivot stop either scan, so
/// they may end on either side of it. A range of one item is its own pivot
/// and stays as it is.
pub fn partition<T: TotalOrder>(arr: &mut [T], lo: usize, hi: usize) -> (p: usize)
    requires
        lo < hi <= old(arr)@.len(),
    ensures
        lo <= p < hi,
        final(arr)@[p as int] == old(arr)@[hi - 1],
        forall|k: int| lo <= k < p ==> (#[trigger] final(arr)@[k]).le(&final(arr)@[p as int]),
        forall|k: int| p < k < hi ==> final(arr)@[p as int].le(&#[trigger] final(arr)@[k]),
        permuted_range(final(arr)@, old(arr)@, lo as int, hi as int),
        same_outside(final(arr)@, old(arr)@, lo as int, hi as int),
{
    if hi - lo < 2 {
        return lo;
    }
    let ghost orig = arr@;
    let pivot = hi - 1;
    let mut i = lo;
    let mut j = pivot;
    proof {
        lemma_reflexive(arr@[pivot as int]);
    }
    loop
        invariant_except_break
            i <= j,
            lo < j,
            forall|k: int| j <= k <= pivot ==> arr@[pivot as int].le(&#[trigger] arr@[k]),
        invariant
            lo <= i <= pivot,
            j <= pivot,
            pivot == hi - 1,
            hi <= arr@.len(),
            arr@[pivot as int] == orig[pivot as int],
            forall|k: int| lo <= k < i ==> (#[trigger] arr@[k]).le(&arr@[pivot as int]),
            permuted_range(arr@, orig, lo as int, hi as int),
            same_outside(arr@, orig, lo as int, hi as int),
        ensures
            forall|k: int| i <= k <= pivot ==> arr@[pivot as int].le(&#[trigger] arr@[k]),
        decreases j,
    {
        let ghost above = j;
        while is_before(&arr[i], &arr[pivot])
            invariant
                lo <= i <= j <= pivot,
                pivot < arr@.len(),
                forall|k: int| lo <= k < i ==> (#[trigger] arr@[k]).le(&arr@[pivot as int]),
                arr@[pivot as int].le(&arr@[j as int]),
            decreases j - i,
        {
            proof {
                T::lemma_total(&arr@[i as int], &arr@[pivot as int]);
            }
            i += 1;
        }
        j -= 1;
        while j > lo && is_before(&arr[pivot], &arr[j])
            invariant
                lo <= j < above <= pivot,
                pivot < arr@.len(),
                forall|k: int| j < k <= pivot ==> arr@[pivot as int].le(&#[trigger] arr@[k]),
            decreases j,
        {
            proof {
                T::lemma_total(&arr@[j as int], &arr@[pivot as int]);
            }
            j -= 1;
        }
        if i >= j {
            break ;
        }
        proof {
            lemma_swap_in_range(arr@, lo as int, hi as int, i as int, j as int);
        }
        arr.swap(i, j);
        i += 1;
    }
    proof {
        lemma_swap_in_range(arr@, lo as int, hi as int, i as int, pivot as int);
    }
    arr.swap(i, pivot);
    i
}

/// A bound that holds of every item in `lo..hi` still holds after the range
/// has been rearranged.
proof fn lemma_bounds_survive<T: TotalOrder>(a: Seq<T>, b: Seq<T>, lo: int, hi: int, x: T)
    requires
        0 <= lo <= hi <= a.len(),
        a.len() == b.len(),
        permuted_range(b, a, lo, hi),
    ensures
        (forall|k: int| lo <= k < hi ==> (#[trigger] a[k]).le(&x)) ==> (forall|k: int|
            lo <= k < hi ==> (#[trigger] b[k]).le(&x)),
        (forall|k: int| lo <= k < hi ==> x.le(&#[trigger] a[k])) ==> (forall|k: int|
            lo <= k < hi ==> x.le(&#[trigger] b[k])),
{
    let ra = a.subrange(lo, hi);
    let rb = b.subrange(lo, hi);
    assert forall|k: int| lo <= k < hi implies exists|m: int|
        lo <= m < hi && a[m] == #[trigger] b[k] by {
        assert(rb[k - lo] == b[k]);
        vstd::seq_lib::to_multiset_contains(rb, b[k]);
        vstd::seq_lib::to_multiset_contains(ra, b[k]);
        assert(rb.contains(b[k]));
        let m = choose|m: int| 0 <= m < ra.len() && ra[m] == b[k];
        assert(a[m + lo] == b[k]);
    }
}

/// A range rearranged in two adjoining parts has been rearranged as a whole.
proof fn lemma_permuted_parts<T>(a: Seq<T>, b: Seq<T>, lo: int, mid: int, hi: int)
    requires
        0 <= lo <= mid <= hi <= a.len(),
        a.len() == b.len(),
        permuted_range(a, b, lo, mid),
        permuted_range(a, b, mid, hi),
    ensures
        permuted_range(a, b, lo, hi),
{
    assert(a.subrange(lo, hi) =~= a.subrange(lo, mid) + a.subrange(mid, hi));
    assert(b.subrange(lo, hi) =~= b.subrange(lo, mid) + b.subrange(mid, hi));
    vstd::seq_lib::lemma_multiset_commutative(a.subrange(lo, mid), a.subrange(mid, hi));
    vstd::seq_lib::lemma_multiset_commutative(b.subrange(lo, mid), b.subrange(mid, hi));
}

/// A range that was left untouched holds the items it held.
proof fn lemma_untouched_is_permuted<T>(a: Seq<T>, b: Seq<T>, lo: int, hi: int)
    requires
        0 <= lo <= hi <= a.len(),
        a.len() == b.len(),
        forall|k: int| lo <= k < hi ==> a[k] == b[k],
    ensures
        permuted_range(a, b, lo, hi),
{
    assert(a.subrange(lo, hi) =~= b.subrange(lo, hi));
}

/// Sorts `arr[lo..hi]` in place and leaves the rest of `arr` as it was.
///
/// A range of fewer than two items is already sorted. A longer one is
/// partitioned around its last item, and the parts before and after the
/// pivot's final position are sorted in turn.
pub fn _quicksort<T: TotalOrder>(arr: &mut [T], lo: usize, hi: usize)
    requires
        lo <= hi <= old(arr)@.len(),
    ensures
        sorted_range(final(arr)@, lo as int, hi as int),
        permuted_range(final(arr)@, old(arr)@, lo as int, hi as int),
        same_outside(final(arr)@, old(arr)@, lo as int, hi as int),
    decreases hi - lo,
{
    if hi - lo < 2 {
        proof {
            if lo < hi {
                lemma_reflexive(arr@[lo as int]);
            }
        }
        return ;
    }
    let p = partition(arr, lo, hi);
    let ghost s1 = arr@;
    _quicksort(arr, lo, p);
    let ghost s2 = arr@;
    _quicksort(arr, p + 1, hi);
    proof {
        let s3 = arr@;
        let (l, m, h) = (lo as int, p as int, hi as int);
        let x = s1[m];
        assert(s3[m] == x);
        // The bounds that partitioning set up hold of the sorted parts too.
        lemma_bounds_survive(s1, s2, l, m, x);
        lemma_bounds_survive(s2, s3, m + 1, h, x);
        assert forall|a: int, b: int| l <= a <= b < h implies #[trigger] s3[a].le(
            &#[trigger] s3[b],
        ) by {
            if a < m && b > m {
                T::lemma_transitive(&s3[a], &x, &s3[b]);
            } else if a == m && b == m {
                lemma_reflexive(x);
            }
        }
        // Each step rearranged `lo..hi` and nothing else.
        lemma_untouched_is_permuted(s2, s1, m, h);
        lemma_permuted_parts(s2, s1, l, m, h);
        lemma_untouched_is_permuted(s3, s2, l, m + 1);
        lemma_permuted_parts(s3, s2, l, m + 1, h);
    }
}

/// Two sorted arrangements of the same items agree up to ties: they hold
/// tied items at every position. Where no two of the items are tied, there
/// is only one sorted arrangement.
pub proof fn lemma_sorted_agree<T: TotalOrder>(a: Seq<T>, b: Seq<T>)
    requires
        sorted(a),
        sorted(b),
        a.to_multiset() == b.to_multiset(),
    ensures
        tied_pointwise(a, b),
        tie_free(a) ==> a == b,
{
    broadcast use vstd::multiset::group_multiset_axioms;

    vstd::seq_lib::to_multiset_len(a);
    assert(is_top_k(a, a.len(), a));
    assert(is_top_k(a, a.len(), b));
    lemma_top_k_unique(a, a.len(), a, b);
}

/// Items of which no two are tied stay so however they are rearranged.
pub proof fn lemma_tie_free_rearranged<T: TotalOrder>(a: Seq<T>, b: Seq<T>)
    requires
        tie_free(a),
        a.to_multiset() == b.to_multiset(),
    ensures
        tie_free(b),
{
    assert forall|i: int, j: int| 0 <= i < a.len() && 0 <= j < a.len() && i != j implies a[i]
        != a[j] by {
        lemma_reflexive(a[i]);
        assert(!tied(a[i], a[j]));
    }
    a.lemma_multiset_has_no_duplicates();
    b.lemma_multiset_has_no_duplicates_conv();
    assert forall|i: int, j: int| 0 <= i < b.len() && 0 <= j < b.len() && i != j implies !tied(
        #[trigger] b[i],
        #[trigger] b[j],
    ) by {
        vstd::seq_lib::to_multiset_contains(b, b[i]);
        vstd::seq_lib::to_multiset_contains(b, b[j]);
        vstd::seq_lib::to_multiset_contains(a, b[i]);
        vstd::seq_lib::to_multiset_contains(a, b[j]);
        assert(b.contains(b[i]) && b.contains(b[j]));
        let m = choose|m: int| 0 <= m < a.len() && a[m] == b[i];
        let n = choose|n: int| 0 <= n < a.len() && a[n] == b[j];
        assert(b[i] != b[j]);
        assert(!tied(a[m], a[n]));
    }
}

/// Sorting items of which no two are tied places each strictly before the
/// next.
pub proof fn lemma_sorted_tie_free_is_strict<T: TotalOrder>(s: Seq<T>)
    requires
        sorted(s),
        tie_free(s),
    ensures
        strictly_sorted(s),
{
    assert forall|i: int, j: int| 0 <= i < j < s.len() implies before(
        #[trigger] s[i],
        #[trigger] s[j],
    ) by {
        assert(s[i].le(&s[j]));
        assert(!tied(s[i], s[j]));
    }
}

/// Sorts `arr` in place: afterwards every item is placed no later than the
/// items that follow it, and `arr` holds the items it held before, each as
/// often as before. An empty slice is left as it is.
///
/// Sorting what is already sorted changes nothing but, possibly, the
/// arrangement of tied items among themselves; where no two items are tied
/// it changes nothing at all, and the result is strictly ordered.
pub fn quicksort<T: TotalOrder>(arr: &mut [T])
    ensures
        sorted(final(arr)@),
        final(arr)@.to_multiset() == old(arr)@.to_multiset(),
        sorted(old(arr)@) ==> tied_pointwise(old(arr)@, final(arr)@),
        sorted(old(arr)@) && tie_free(old(arr)@) ==> final(arr)@ == old(arr)@,
        tie_free(old(arr)@) ==> strictly_sorted(final(arr)@),
{
    let len = arr.len();
    _quicksort(arr, 0, len);
    proof {
        assert(arr@.subrange(0, len as int) =~= arr@);
        assert(old(arr)@.subrange(0, len as int) =~= old(arr)@);
        if sorted(old(arr)@) {
            lemma_sorted_agree(old(arr)@, arr@);
        }
        if tie_free(old(arr)@) {
            lemma_tie_free_rearranged(old(arr)@, arr@);
            lemma_sorted_tie_free_is_strict(arr@);
        }
    }
}

} // verus!
