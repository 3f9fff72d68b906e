//! Selection sort.
use crate::binary_search::sorted;
use vstd::prelude::*;

verus! {

broadcast use vstd::seq_lib::to_multiset_update;

/// Swapping two entries keeps the same keys.
pub proof fn lemma_swap_multiset(s: Seq<i64>, i: int, j: int)
    requires
        0 <= i < s.len(),
        0 <= j < s.len(),
    ensures
        s.update(i, s[j]).update(j, s[i]).to_multiset() == s.to_multiset(),
{
    broadcast use vstd::seq_lib::group_to_multiset_ensures;

    let t = s.update(i, s[j]);
    assert(t.to_multiset() == s.to_multiset().insert(s[j]).remove(s[i]));
    assert(t.update(j, s[i]).to_multiset() == t.to_multiset().insert(s[i]).remove(t[j]));
    assert(s.contains(s[i]));
    assert(s.contains(s[j]));
    assert(t[j] == s[j] || i == j);
    assert(s.to_multiset().insert(s[j]).remove(s[i]).insert(s[i]).remove(t[j]) =~= s.to_multiset());
}

/// Exchanges two entries.
pub(crate) fn exchange(list: &mut Vec<i64>, i: usize, j: usize)
    requires
        i < old(list)@.len(),
        j < old(list)@.len(),
    ensures
        final(list)@ == old(list)@.update(i as int, old(list)@[j as int]).update(j as int, old(list)@[i as int]),
        final(list)@.to_multiset() == old(list)@.to_multiset(),
{
    let a = list[i];
    let b = list[j];
    list.set(i, b);
    list.set(j, a);
    proof {
        lemma_swap_multiset(old(list)@, i as int, j as int);
    }
}

/// Sorts `list[lo..hi]` in place by repeatedly moving the smallest remaining key to the front
/// of the range; the rest of `list` stays as it is.
pub(crate) fn selection_sort_range(list: &mut Vec<i64>, lo: usize, hi: usize)
    requires
        lo <= hi <= old(list)@.len(),
    ensures
        final(list)@.len() == old(list)@.len(),
        sorted(final(list)@.subrange(lo as int, hi as int)),
        final(list)@.subrange(lo as int, hi as int).to_multiset() == old(list)@.subrange(lo as int, hi as int).to_multiset(),
        forall|k: int| 0 <= k < final(list)@.len() && !(lo <= k < hi) ==> final(list)@[k] == old(list)@[k],
{
    let mut i: usize = lo;
    while i < hi
        invariant
            lo <= i <= hi,
            hi <= list@.len(),
            list@.len() == old(list)@.len(),
            list@.subrange(lo as int, hi as int).to_multiset() == old(list)@.subrange(lo as int, hi as int).to_multiset(),
            forall|k: int| 0 <= k < list@.len() && !(lo <= k < hi) ==> list@[k] == old(list)@[k],
            forall|a: int, b: int| lo <= a <= b < i ==> list@[a] <= list@[b],
            forall|a: int, b: int| lo <= a < i <= b < hi ==> list@[a] <= list@[b],
        decreases hi - i,
    {
        let mut min = i;
        let mut j = i + 1;
        while j < hi
            invariant
                hi <= list@.len(),
                lo <= i < hi,
                i <= min < hi,
                i + 1 <= j <= hi,
                min < j,
                forall|b: int| i <= b < j ==> list@[min as int] <= #[trigger] list@[b],
            decreases hi - j,
        {
            if list[j] < list[min] {
                min = j;
            }
            j += 1;
        }
        let ghost before = list@;
        exchange(list, i, min);
        proof {
            let d = before.subrange(lo as int, hi as int);
            assert(list@.subrange(lo as int, hi as int) =~= d.update(i - lo, d[min - lo]).update(min - lo, d[i - lo]));
            lemma_swap_multiset(d, i - lo, min - lo);
        }
        i += 1;
    }
    assert forall|a: int, b: int| 0 <= a <= b < hi - lo implies list@.subrange(lo as int, hi as int)[a] <= list@.subrange(lo as int, hi as int)[b] by {
        assert(list@[lo + a] <= list@[lo + b]);
    }
}

/// Sorts `list` in place by repeatedly moving the smallest remaining key to the front.
pub fn selection_sort(list: &mut Vec<i64>)
    ensures
        sorted(final(list)@),
        final(list)@.to_multiset() == old(list)@.to_multiset(),
{
    let len = list.len();
    selection_sort_range(list, 0, len);
    assert(list@.subrange(0, len as int) =~= list@);
    assert(old(list)@.subrange(0, len as int) =~= old(list)@);
}

} // verus!
