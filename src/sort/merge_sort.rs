//! Merge sorts.
use crate::binary_search::sorted;
use vstd::prelude::*;

verus! {

broadcast use {vstd::seq_lib::group_to_multiset_ensures, vstd::seq_lib::lemma_multiset_commutative};

/// Merges two sorted sequences into one sorted sequence of all their keys; on equal keys the
/// one from `arr1` comes first.
fn merge(arr1: &Vec<i64>, arr2: &Vec<i64>) -> (ret: Vec<i64>)
    requires
        sorted(arr1@),
        sorted(arr2@),
    ensures
        sorted(ret@),
        ret@.to_multiset() == arr1@.to_multiset().add(arr2@.to_multiset()),
{
    let mut ret: Vec<i64> = Vec::new();
    let mut left: usize = 0;
    let mut right: usize = 0;
    while left < arr1.len() || right < arr2.len()
        invariant
            sorted(arr1@),
            sorted(arr2@),
            left <= arr1@.len(),
            right <= arr2@.len(),
            ret@.len() == left + right,
            sorted(ret@),
            ret@.to_multiset() == arr1@.subrange(0, left as int).to_multiset().add(arr2@.subrange(0, right as int).to_multiset()),
            ret@.len() > 0 && left < arr1@.len() ==> ret@.last() <= arr1@[left as int],
            ret@.len() > 0 && right < arr2@.len() ==> ret@.last() <= arr2@[right as int],
        decreases arr1@.len() + arr2@.len() - left - right,
    {
        if right == arr2.len() || (left < arr1.len() && arr1[left] <= arr2[right]) {
            let x = arr1[left];
            ret.push(x);
            proof {
                assert(arr1@.subrange(0, left + 1) =~= arr1@.subrange(0, left as int).push(x));
            }
            left += 1;
        } else {
            let x = arr2[right];
            ret.push(x);
            proof {
                assert(arr2@.subrange(0, right + 1) =~= arr2@.subrange(0, right as int).push(x));
            }
            right += 1;
        }
        proof {
            assert(ret@.to_multiset() =~= arr1@.subrange(0, left as int).to_multiset().add(arr2@.subrange(0, right as int).to_multiset()));
        }
    }
    proof {
        assert(arr1@.subrange(0, left as int) =~= arr1@);
        assert(arr2@.subrange(0, right as int) =~= arr2@);
    }
    ret
}

/// A copy of `arr[lo..hi]`.
fn copy_range(arr: &Vec<i64>, lo: usize, hi: usize) -> (r: Vec<i64>)
    requires
        lo <= hi <= arr@.len(),
    ensures
        r@ == arr@.subrange(lo as int, hi as int),
{
    let mut r: Vec<i64> = Vec::new();
    let mut k = lo;
    while k < hi
        invariant
            lo <= k <= hi,
            hi <= arr@.len(),
            r@ == arr@.subrange(lo as int, k as int),
        decreases hi - k,
    {
        r.push(arr[k]);
        k += 1;
        assert(r@ =~= arr@.subrange(lo as int, k as int));
    }
    r
}

/// Sorts `arr` by sorting each half and merging them.
pub fn merge_sort(arr: &mut Vec<i64>)
    ensures
        sorted(final(arr)@),
        final(arr)@.to_multiset() == old(arr)@.to_multiset(),
    decreases old(arr)@.len(),
{
    let mid = arr.len() / 2;
    if mid == 0 {
        return;
    }
    let len = arr.len();
    let mut left = copy_range(arr, 0, mid);
    let mut right = copy_range(arr, mid, len);
    merge_sort(&mut left);
    merge_sort(&mut right);
    let ret = merge(&left, &right);
    proof {
        assert(old(arr)@ =~= old(arr)@.subrange(0, mid as int) + old(arr)@.subrange(mid as int, len as int));
    }
    *arr = ret;
}

proof fn lemma_sorted_push(s: Seq<i64>, x: i64)
    requires
        sorted(s),
        s.len() > 0 ==> s.last() <= x,
    ensures
        sorted(s.push(x)),
{
    assert forall|a: int, b: int| 0 <= a <= b < s.len() + 1 implies s.push(x)[a] <= s.push(x)[b] by {
        if b == s.len() && a < s.len() {
            assert(s[a] <= s[s.len() - 1]);
        }
    }
}

/// Merges the sorted ranges `list[low..=mid]` and `list[mid+1..=high]` into a sorted
/// `list[low..=high]`, using `aux` as scratch space.
fn merge_with_aux(list: &mut Vec<i64>, aux: &mut Vec<i64>, low: usize, mid: usize, high: usize)
    requires
        low <= mid < high < old(list)@.len(),
        old(aux)@.len() == old(list)@.len(),
        sorted(old(list)@.subrange(low as int, mid + 1)),
        sorted(old(list)@.subrange(mid + 1, high + 1)),
    ensures
        final(list)@.len() == old(list)@.len(),
        final(aux)@.len() == old(aux)@.len(),
        sorted(final(list)@.subrange(low as int, high + 1)),
        final(list)@.subrange(low as int, high + 1).to_multiset() == old(list)@.subrange(low as int, high + 1).to_multiset(),
        forall|k: int| 0 <= k < final(list)@.len() && !(low <= k <= high) ==> final(list)@[k] == old(list)@[k],
{
    let n = list.len();
    let mut k = low;
    while k <= high
        invariant
            low <= k <= high + 1,
            n == list@.len(),
            high < list@.len(),
            list@ == old(list)@,
            aux@.len() == list@.len(),
            forall|t: int| low <= t < k ==> aux@[t] == list@[t],
        decreases high + 1 - k,
    {
        aux.set(k, list[k]);
        k += 1;
    }
    let ghost left = aux@.subrange(low as int, mid + 1);
    let ghost right = aux@.subrange(mid + 1, high + 1);
    assert(left =~= old(list)@.subrange(low as int, mid + 1));
    assert(right =~= old(list)@.subrange(mid + 1, high + 1));
    let mut i = low;
    let mut j = mid + 1;
    let mut k = low;
    while i <= mid || j <= high
        invariant
            low <= i <= mid + 1,
            mid + 1 <= j <= high + 1,
            k == i + j - mid - 1,
            n == list@.len(),
            high < list@.len(),
            aux@.len() == list@.len(),
            list@.len() == old(list)@.len(),
            left == aux@.subrange(low as int, mid + 1),
            right == aux@.subrange(mid + 1, high + 1),
            sorted(left),
            sorted(right),
            forall|t: int| 0 <= t < list@.len() && !(low <= t <= high) ==> list@[t] == old(list)@[t],
            sorted(list@.subrange(low as int, k as int)),
            list@.subrange(low as int, k as int).to_multiset() == left.subrange(0, i - low).to_multiset().add(
                right.subrange(0, j - mid - 1).to_multiset(),
            ),
            k > low && i <= mid ==> list@[k - 1] <= aux@[i as int],
            k > low && j <= high ==> list@[k - 1] <= aux@[j as int],
        decreases high + 1 - k,
    {
        let ghost before = list@;
        if j > high || (i <= mid && !(aux[j] < aux[i])) {
            list.set(k, aux[i]);
            proof {
                assert(left.subrange(0, i + 1 - low) =~= left.subrange(0, i - low).push(aux@[i as int]));
                assert(list@.subrange(low as int, k + 1) =~= before.subrange(low as int, k as int).push(aux@[i as int]));
                lemma_sorted_push(before.subrange(low as int, k as int), aux@[i as int]);
                if i + 1 <= mid {
                    assert(left[i - low] <= left[i + 1 - low]);
                }
            }
            i += 1;
        } else {
            list.set(k, aux[j]);
            proof {
                assert(right.subrange(0, j + 1 - mid - 1) =~= right.subrange(0, j - mid - 1).push(aux@[j as int]));
                assert(list@.subrange(low as int, k + 1) =~= before.subrange(low as int, k as int).push(aux@[j as int]));
                lemma_sorted_push(before.subrange(low as int, k as int), aux@[j as int]);
                if j + 1 <= high {
                    assert(right[j - mid - 1] <= right[j + 1 - mid - 1]);
                }
            }
            j += 1;
        }
        k += 1;
    }
    proof {
        assert(left.subrange(0, i - low) =~= left);
        assert(right.subrange(0, j - mid - 1) =~= right);
        assert(old(list)@.subrange(low as int, high + 1) =~= left + right);
    }
}

/// Sorts `list[low..=high]` by sorting each half and merging them.
fn do_merge_sort(list: &mut Vec<i64>, aux: &mut Vec<i64>, low: usize, high: usize)
    requires
        low <= high < old(list)@.len(),
        old(aux)@.len() == old(list)@.len(),
    ensures
        final(list)@.len() == old(list)@.len(),
        final(aux)@.len() == old(aux)@.len(),
        sorted(final(list)@.subrange(low as int, high + 1)),
        final(list)@.subrange(low as int, high + 1).to_multiset() == old(list)@.subrange(low as int, high + 1).to_multiset(),
        forall|k: int| 0 <= k < final(list)@.len() && !(low <= k <= high) ==> final(list)@[k] == old(list)@[k],
    decreases high - low,
{
    if high <= low {
        return;
    }
    let mid = low + (high - low) / 2;
    let ghost a = list@;
    do_merge_sort(list, aux, low, mid);
    let ghost b = list@;
    do_merge_sort(list, aux, mid + 1, high);
    let ghost c = list@;
    proof {
        assert(c.subrange(low as int, mid + 1) =~= b.subrange(low as int, mid + 1));
    }
    merge_with_aux(list, aux, low, mid, high);
    proof {
        assert(a.subrange(low as int, high + 1) =~= a.subrange(low as int, mid + 1) + a.subrange(mid + 1, high + 1));
        assert(b.subrange(low as int, high + 1) =~= b.subrange(low as int, mid + 1) + b.subrange(mid + 1, high + 1));
        assert(c.subrange(low as int, high + 1) =~= c.subrange(low as int, mid + 1) + c.subrange(mid + 1, high + 1));
        assert(b.subrange(mid + 1, high + 1) =~= a.subrange(mid + 1, high + 1));
    }
}

/// Sorts `list` top-down, merging through one scratch array.
pub fn merge_sort_with_aux(list: &mut Vec<i64>)
    ensures
        sorted(final(list)@),
        final(list)@.to_multiset() == old(list)@.to_multiset(),
{
    let len = list.len();
    if len == 0 {
        return;
    }
    let mut aux = copy_range(list, 0, len);
    do_merge_sort(list, &mut aux, 0, len - 1);
    assert(list@.subrange(0, len as int) =~= list@);
    assert(old(list)@.subrange(0, len as int) =~= old(list)@);
}

/// Run number `t` of width `w` (the last run possibly shorter) is sorted.
pub open spec fn run_sorted(s: Seq<i64>, w: int, t: int) -> bool {
    let lo = t * w;
    let hi = if (t + 1) * w < s.len() {
        (t + 1) * w
    } else {
        s.len() as int
    };
    lo >= s.len() || sorted(s.subrange(lo, hi))
}

/// Keys of a sequence whose range `lo..hi` was rearranged and the rest kept.
proof fn lemma_range_keys(s: Seq<i64>, t: Seq<i64>, lo: int, hi: int)
    requires
        0 <= lo <= hi <= s.len(),
        s.len() == t.len(),
        t.subrange(lo, hi).to_multiset() == s.subrange(lo, hi).to_multiset(),
        forall|k: int| 0 <= k < s.len() && !(lo <= k < hi) ==> t[k] == s[k],
    ensures
        t.to_multiset() == s.to_multiset(),
{
    assert(s =~= s.subrange(0, lo) + s.subrange(lo, hi) + s.subrange(hi, s.len() as int));
    assert(t =~= t.subrange(0, lo) + t.subrange(lo, hi) + t.subrange(hi, t.len() as int));
    assert(t.subrange(0, lo) =~= s.subrange(0, lo));
    assert(t.subrange(hi, t.len() as int) =~= s.subrange(hi, s.len() as int));
}

/// A run that lies outside a rearranged range stays sorted.
proof fn lemma_run_frame(s: Seq<i64>, t: Seq<i64>, w: int, r: int, lo: int, hi: int)
    requires
        s.len() == t.len(),
        w >= 1,
        r >= 0,
        forall|k: int| 0 <= k < s.len() && !(lo <= k < hi) ==> t[k] == s[k],
        (r + 1) * w <= lo || r * w >= hi,
        run_sorted(s, w, r),
    ensures
        run_sorted(t, w, r),
{
    let a = r * w;
    let b = if (r + 1) * w < s.len() { (r + 1) * w } else { s.len() as int };
    assert((r + 1) * w == r * w + w) by (nonlinear_arith);
    if a < s.len() {
        assert(a <= b);
        assert(t.subrange(a, b) =~= s.subrange(a, b));
    }
}

/// Sorts `list` bottom-up: merges runs of 1, 2, 4, ... keys until one run is left.
pub fn bottom_up_merge_sort(list: &mut Vec<i64>)
    ensures
        sorted(final(list)@),
        final(list)@.to_multiset() == old(list)@.to_multiset(),
{
    let len = list.len();
    if len == 0 {
        return;
    }
    let max_index = len - 1;
    let mut aux = copy_range(list, 0, len);
    let mut size: usize = 1;
    proof {
        assert forall|t: int| 0 <= t implies #[trigger] run_sorted(list@, 1, t) by {
            if t < len {
                assert(t * 1 == t);
                assert((t + 1) * 1 == t + 1);
            }
        }
    }
    while size < len
        invariant
            len == list@.len(),
            len >= 1,
            max_index == len - 1,
            aux@.len() == len,
            1 <= size,
            list@.to_multiset() == old(list)@.to_multiset(),
            forall|t: int| 0 <= t ==> #[trigger] run_sorted(list@, size as int, t),
        decreases len - size,
    {
        let ghost w2 = 2 * size as int;
        let mut low: usize = 0;
        let ghost mut pass: int = 0;
        while low < len - size
            invariant
                len == list@.len(),
                max_index == len - 1,
                aux@.len() == len,
                1 <= size < len,
                w2 == 2 * size,
                low <= len,
                pass >= 0,
                low == pass * w2 || (low == len && pass * w2 >= len),
                list@.to_multiset() == old(list)@.to_multiset(),
                forall|t: int| 0 <= t < pass ==> #[trigger] run_sorted(list@, w2, t),
                forall|t: int| t >= 2 * pass ==> #[trigger] run_sorted(list@, size as int, t),
            decreases len - low,
        {
            let mid = low + size - 1;
            let rest = max_index - (low + size);
            let high = if size - 1 < rest {
                low + size + (size - 1)
            } else {
                max_index
            };
            let ghost before = list@;
            proof {
                let sz = size as int;
                assert(low == pass * w2);
                assert(low == (2 * pass) * sz) by (nonlinear_arith)
                    requires
                        low == pass * w2,
                        w2 == 2 * sz,
                ;
                assert(low + sz == (2 * pass + 1) * sz) by (nonlinear_arith)
                    requires
                        low == (2 * pass) * sz,
                ;
                assert(low + 2 * sz == (2 * pass + 2) * sz) by (nonlinear_arith)
                    requires
                        low == (2 * pass) * sz,
                ;
                assert(run_sorted(before, sz, 2 * pass));
                assert(run_sorted(before, sz, 2 * pass + 1));
                assert(before.subrange(low as int, mid + 1) =~= before.subrange((2 * pass) * sz, (2 * pass + 1) * sz));
                if (2 * pass + 2) * sz < len {
                    assert(before.subrange(mid + 1, high + 1) =~= before.subrange((2 * pass + 1) * sz, (2 * pass + 2) * sz));
                } else {
                    assert(before.subrange(mid + 1, high + 1) =~= before.subrange((2 * pass + 1) * sz, len as int));
                }
            }
            merge_with_aux(list, &mut aux, low, mid, high);
            proof {
                let after = list@;
                let sz = size as int;
                lemma_range_keys(before, after, low as int, high + 1);
                assert(low + w2 == (pass + 1) * w2) by (nonlinear_arith)
                    requires
                        low == pass * w2,
                ;
                assert(run_sorted(after, w2, pass)) by {
                    if (pass + 1) * w2 < len {
                        assert(high + 1 == (pass + 1) * w2);
                    } else {
                        assert(high + 1 == len);
                    }
                    assert(after.subrange(pass * w2, high + 1) == after.subrange(low as int, high + 1));
                }
                assert forall|t: int| 0 <= t < pass + 1 implies #[trigger] run_sorted(after, w2, t) by {
                    if t < pass {
                        assert((t + 1) * w2 <= pass * w2) by (nonlinear_arith)
                            requires
                                t < pass,
                                w2 >= 0,
                        ;
                        lemma_run_frame(before, after, w2, t, low as int, high + 1);
                    }
                }
                assert forall|t: int| t >= 2 * (pass + 1) implies #[trigger] run_sorted(after, sz, t) by {
                    assert(t * sz >= (2 * pass + 2) * sz) by (nonlinear_arith)
                        requires
                            t >= 2 * pass + 2,
                            sz >= 0,
                    ;
                    assert(run_sorted(before, sz, t));
                    lemma_run_frame(before, after, sz, t, low as int, high + 1);
                }
            }
            proof {
                assert((pass + 1) * w2 == pass * w2 + w2) by (nonlinear_arith);
            }
            low = high + 1;
            proof {
                pass = pass + 1;
            }
        }
        proof {
            let sz = size as int;
            assert forall|t: int| 0 <= t implies #[trigger] run_sorted(list@, w2, t) by {
                if low == len && pass * w2 >= len {
                    if t >= pass {
                        assert(t * w2 >= pass * w2) by (nonlinear_arith)
                            requires
                                t >= pass,
                                w2 >= 0,
                        ;
                    }
                } else if t > pass {
                    assert(t * w2 >= (pass + 1) * w2) by (nonlinear_arith)
                        requires
                            t >= pass + 1,
                            w2 >= 0,
                    ;
                    assert((pass + 1) * w2 == low + w2) by (nonlinear_arith)
                        requires
                            low == pass * w2,
                    ;
                } else if t == pass {
                    if low < len {
                        assert(low == (2 * pass) * sz) by (nonlinear_arith)
                            requires
                                low == pass * w2,
                                w2 == 2 * sz,
                        ;
                        assert(run_sorted(list@, sz, 2 * pass));
                        assert((2 * pass + 1) * sz == low + sz) by (nonlinear_arith)
                            requires
                                low == (2 * pass) * sz,
                        ;
                        assert((pass + 1) * w2 == low + w2) by (nonlinear_arith)
                            requires
                                low == pass * w2,
                        ;
                    }
                }
            }
        }
        let ghost old_size = size as int;
        size = if size > len / 2 {
            len
        } else {
            size * 2
        };
        proof {
            if size == len {
                assert(run_sorted(list@, w2, 0));
                assert(0 * w2 == 0);
                assert(1 * w2 == w2);
                assert forall|t: int| 0 <= t implies #[trigger] run_sorted(list@, size as int, t) by {
                    if t >= 1 {
                        assert(t * (len as int) >= len) by (nonlinear_arith)
                            requires
                                t >= 1,
                                len >= 1,
                        ;
                    } else {
                        assert(t * (len as int) == 0);
                        assert((t + 1) * (len as int) == len);
                    }
                }
            }
        }
    }
    proof {
        assert(run_sorted(list@, size as int, 0));
        assert(0 * (size as int) == 0);
        assert(1 * (size as int) == size);
        assert(list@.subrange(0, len as int) =~= list@);
    }
}

} // verus!
