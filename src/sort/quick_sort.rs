//! Quicksort on a shuffled copy of the input order.
use super::elementary_sort::{exchange, lemma_swap_multiset, selection_sort_range};
use crate::binary_search::sorted;
use vstd::prelude::*;

verus! {

broadcast use {vstd::seq_lib::group_to_multiset_ensures, vstd::seq_lib::lemma_multiset_commutative};

/// Ranges no longer than this are sorted by selection sort.
const CUTOFF: usize = 32;

/// Relies on rand's `SliceRandom::shuffle` driven by `thread_rng`: it reorders the slice by
/// swapping entries, so the keys stay the same. (`thread_rng` panics only when the operating
/// system cannot seed it.)
#[verifier::external_body]
fn shuffle(list: &mut Vec<i64>)
    ensures
        final(list)@.to_multiset() == old(list)@.to_multiset(),
{
    let mut rng = rand::thread_rng();
    rand::seq::SliceRandom::shuffle(list.as_mut_slice(), &mut rng);
}

/// Exchanging two entries of `list[lo..hi]` keeps the keys of that range and leaves the rest.
proof fn lemma_range_swap(s: Seq<i64>, lo: int, hi: int, i: int, j: int)
    requires
        0 <= lo <= i < hi <= s.len(),
        lo <= j < hi,
    ensures
        s.update(i, s[j]).update(j, s[i]).subrange(lo, hi).to_multiset() == s.subrange(lo, hi).to_multiset(),
{
    let d = s.subrange(lo, hi);
    assert(s.update(i, s[j]).update(j, s[i]).subrange(lo, hi) =~= d.update(i - lo, d[j - lo]).update(j - lo, d[i - lo]));
    lemma_swap_multiset(d, i - lo, j - lo);
}

/// Puts `list[lo]` at its final place `p` of the range `lo..hi`, with no larger key before it
/// and no smaller key after it.
fn partition(list: &mut Vec<i64>, lo: usize, hi: usize) -> (p: usize)
    requires
        lo + 2 <= hi <= old(list)@.len(),
    ensures
        lo <= p < hi,
        final(list)@.len() == old(list)@.len(),
        final(list)@.subrange(lo as int, hi as int).to_multiset() == old(list)@.subrange(lo as int, hi as int).to_multiset(),
        forall|k: int| 0 <= k < final(list)@.len() && !(lo <= k < hi) ==> final(list)@[k] == old(list)@[k],
        forall|k: int| lo <= k < p ==> final(list)@[k] <= final(list)@[p as int],
        forall|k: int| p < k < hi ==> final(list)@[p as int] <= final(list)@[k],
{
    let high = hi - 1;
    let first = list[lo];
    let mut i = lo;
    let mut j = hi;
    loop
        invariant_except_break
            lo <= i < j <= hi,
            i + 1 <= high,
            forall|k: int| lo < k <= i ==> list@[k] <= first,
            forall|k: int| j <= k < hi ==> first <= list@[k],
        invariant
            lo + 2 <= hi <= list@.len(),
            high == hi - 1,
            list@.len() == old(list)@.len(),
            list@[lo as int] == first,
            list@.subrange(lo as int, hi as int).to_multiset() == old(list)@.subrange(lo as int, hi as int).to_multiset(),
            forall|k: int| 0 <= k < list@.len() && !(lo <= k < hi) ==> list@[k] == old(list)@[k],
        ensures
            lo <= j <= high,
            list@.len() == old(list)@.len(),
            list@[lo as int] == first,
            list@.subrange(lo as int, hi as int).to_multiset() == old(list)@.subrange(lo as int, hi as int).to_multiset(),
            forall|k: int| 0 <= k < list@.len() && !(lo <= k < hi) ==> list@[k] == old(list)@[k],
            forall|k: int| lo < k <= j ==> list@[k] <= first,
            forall|k: int| j < k < hi ==> first <= list@[k],
        decreases j - i,
    {
        let ghost i0 = i;
        let ghost j0 = j;
        i += 1;
        while list[i] < first && i < high
            invariant
                lo < i <= high,
                i > i0,
                high < list@.len(),
                forall|k: int| lo < k < i ==> list@[k] <= first,
            decreases high - i,
        {
            i += 1;
        }
        j -= 1;
        while first < list[j] && j > lo
            invariant
                lo <= j <= high,
                j < j0,
                high < list@.len(),
                forall|k: int| j < k < hi ==> first <= list@[k],
            decreases j,
        {
            j -= 1;
        }
        if i >= j {
            break;
        }
        let ghost before = list@;
        exchange(list, i, j);
        proof {
            lemma_range_swap(before, lo as int, hi as int, i as int, j as int);
        }
    }
    let ghost before = list@;
    exchange(list, lo, j);
    proof {
        lemma_range_swap(before, lo as int, hi as int, lo as int, j as int);
    }
    j
}

/// The keys of `list[lo..hi]`, with `list[lo..mid]`, `list[mid]` and `list[mid+1..hi]` in turn.
proof fn lemma_split_keys(s: Seq<i64>, lo: int, mid: int, hi: int)
    requires
        0 <= lo <= mid < hi <= s.len(),
    ensures
        s.subrange(lo, hi).to_multiset() == s.subrange(lo, mid).to_multiset().add(seq![s[mid]].to_multiset()).add(
            s.subrange(mid + 1, hi).to_multiset(),
        ),
{
    assert(s.subrange(lo, hi) =~= s.subrange(lo, mid) + seq![s[mid]] + s.subrange(mid + 1, hi));
}

/// Every key of `t` is a key of `s`.
proof fn lemma_same_keys_contains(s: Seq<i64>, t: Seq<i64>, k: int)
    requires
        t.to_multiset() == s.to_multiset(),
        0 <= k < t.len(),
    ensures
        s.contains(t[k]),
{
    assert(t.contains(t[k]));
    assert(t.to_multiset().count(t[k]) > 0);
    assert(s.to_multiset().count(t[k]) > 0);
}

/// Sorts `list[lo..hi]` in place; the rest of `list` stays as it is.
fn do_sort(list: &mut Vec<i64>, lo: usize, hi: usize)
    requires
        lo <= hi <= old(list)@.len(),
    ensures
        final(list)@.len() == old(list)@.len(),
        sorted(final(list)@.subrange(lo as int, hi as int)),
        final(list)@.subrange(lo as int, hi as int).to_multiset() == old(list)@.subrange(lo as int, hi as int).to_multiset(),
        forall|k: int| 0 <= k < final(list)@.len() && !(lo <= k < hi) ==> final(list)@[k] == old(list)@[k],
    decreases hi - lo,
{
    if hi - lo <= CUTOFF {
        selection_sort_range(list, lo, hi);
        return;
    }
    let p = partition(list, lo, hi);
    let ghost a = list@;
    do_sort(list, lo, p);
    let ghost b = list@;
    do_sort(list, p + 1, hi);
    let ghost c = list@;
    proof {
        let pivot = a[p as int];
        assert(c[p as int] == pivot);
        assert forall|k: int| lo <= k < p implies c[k] <= pivot by {
            assert(c[k] == b[k]);
            let t = b.subrange(lo as int, p as int);
            lemma_same_keys_contains(a.subrange(lo as int, p as int), t, k - lo);
            let as_ = a.subrange(lo as int, p as int);
            let m = choose|m: int| 0 <= m < as_.len() && as_[m] == t[k - lo];
            assert(a[lo + m] <= pivot);
        }
        assert forall|k: int| p < k < hi implies pivot <= c[k] by {
            let t = c.subrange(p + 1, hi as int);
            lemma_same_keys_contains(b.subrange(p + 1, hi as int), t, k - p - 1);
            let bs = b.subrange(p + 1, hi as int);
            let m = choose|m: int| 0 <= m < bs.len() && bs[m] == t[k - p - 1];
            assert(b[p + 1 + m] == a[p + 1 + m]);
        }
        let r = c.subrange(lo as int, hi as int);
        assert forall|x: int, y: int| 0 <= x <= y < r.len() implies r[x] <= r[y] by {
            let gx = lo + x;
            let gy = lo + y;
            if gy < p {
                assert(b.subrange(lo as int, p as int)[x] <= b.subrange(lo as int, p as int)[y]);
            } else if gx > p {
                assert(c.subrange(p + 1, hi as int)[gx - p - 1] <= c.subrange(p + 1, hi as int)[gy - p - 1]);
            }
        }
        lemma_split_keys(c, lo as int, p as int, hi as int);
        lemma_split_keys(a, lo as int, p as int, hi as int);
        assert(c.subrange(lo as int, p as int) =~= b.subrange(lo as int, p as int));
        assert(b.subrange(p + 1, hi as int) =~= a.subrange(p + 1, hi as int));
    }
}

/// Sorts `list` in place: shuffles it, then sorts by partitioning around a key.
pub fn quick_sort(list: &mut Vec<i64>)
    ensures
        sorted(final(list)@),
        final(list)@.to_multiset() == old(list)@.to_multiset(),
{
    shuffle(list);
    let len = list.len();
    let ghost shuffled = list@;
    do_sort(list, 0, len);
    assert(list@.subrange(0, len as int) =~= list@);
    assert(shuffled.subrange(0, len as int) =~= shuffled);
}

} // verus!
