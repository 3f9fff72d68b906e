//! Counting pairs and triples that sum to zero.
use vstd::prelude::*;

verus! {

broadcast use vstd::seq_lib::group_to_multiset_ensures;

/// No key is followed by a smaller one.
pub open spec fn ascending(s: Seq<i32>) -> bool {
    forall|i: int, j: int| 0 <= i <= j < s.len() ==> s[i] <= s[j]
}

/// Relies on std's `slice::sort`: afterwards the slice holds the same keys in ascending order.
#[verifier::external_body]
fn sort_keys(list: &mut [i32])
    ensures
        ascending(final(list)@),
        final(list)@.to_multiset() == old(list)@.to_multiset(),
{
    list.sort();
}

/// Relies on std's `slice::binary_search` on an ascending slice: `Ok` with a position that
/// holds `x`, or `Err` with the position where `x` would go to keep the slice ascending.
#[verifier::external_body]
fn search_key(list: &[i32], x: &i32) -> (r: Result<usize, usize>)
    requires
        ascending(list@),
    ensures
        r matches Ok(i) ==> i < list@.len() && list@[i as int] == *x,
        r matches Err(i) ==> i <= list@.len() && (forall|j: int| 0 <= j < i ==> #[trigger] list@[j] < *x) && (forall|j: int|
            i <= j < list@.len() ==> *x < #[trigger] list@[j]),
{
    list.binary_search(x)
}

/// The number of `k` in `lo..hi` with `s[i] + s[k] == 0`.
pub open spec fn pair_hits(s: Seq<i32>, i: int, lo: int, hi: int) -> nat
    decreases hi - lo,
{
    if hi <= lo {
        0
    } else {
        pair_hits(s, i, lo, hi - 1) + if s[i] + s[hi - 1] == 0 {
            1nat
        } else {
            0nat
        }
    }
}

/// The number of pairs `i < k` with `i < n` whose keys sum to zero.
pub open spec fn zero_pairs(s: Seq<i32>, n: int) -> nat
    decreases n,
{
    if n <= 0 {
        0
    } else {
        zero_pairs(s, n - 1) + pair_hits(s, n - 1, n, s.len() as int)
    }
}

/// The number of `k` in `lo..hi` with `s[i] + s[j] + s[k] == 0`.
pub open spec fn triple_hits(s: Seq<i32>, i: int, j: int, lo: int, hi: int) -> nat
    decreases hi - lo,
{
    if hi <= lo {
        0
    } else {
        triple_hits(s, i, j, lo, hi - 1) + if s[i] + s[j] + s[hi - 1] == 0 {
            1nat
        } else {
            0nat
        }
    }
}

/// The number of triples `i < j < k` with `lo <= j < hi` whose keys sum to zero.
pub open spec fn triples_with(s: Seq<i32>, i: int, lo: int, hi: int) -> nat
    decreases hi - lo,
{
    if hi <= lo {
        0
    } else {
        triples_with(s, i, lo, hi - 1) + triple_hits(s, i, hi - 1, hi, s.len() as int)
    }
}

/// The number of triples `i < j < k` with `i < n` whose keys sum to zero.
pub open spec fn zero_triples(s: Seq<i32>, n: int) -> nat
    decreases n,
{
    if n <= 0 {
        0
    } else {
        zero_triples(s, n - 1) + triples_with(s, n - 1, n, s.len() as int)
    }
}

proof fn lemma_pair_hits_mono(s: Seq<i32>, i: int, lo: int, hi: int, top: int)
    requires
        hi <= top,
    ensures
        pair_hits(s, i, lo, hi) <= pair_hits(s, i, lo, top),
    decreases top - hi,
{
    if hi < top {
        lemma_pair_hits_mono(s, i, lo, hi, top - 1);
    }
}

proof fn lemma_zero_pairs_mono(s: Seq<i32>, n: int, top: int)
    requires
        n <= top,
    ensures
        zero_pairs(s, n) <= zero_pairs(s, top),
    decreases top - n,
{
    if n < top {
        lemma_zero_pairs_mono(s, n, top - 1);
    }
}

proof fn lemma_triple_hits_mono(s: Seq<i32>, i: int, j: int, lo: int, hi: int, top: int)
    requires
        hi <= top,
    ensures
        triple_hits(s, i, j, lo, hi) <= triple_hits(s, i, j, lo, top),
    decreases top - hi,
{
    if hi < top {
        lemma_triple_hits_mono(s, i, j, lo, hi, top - 1);
    }
}

proof fn lemma_triples_with_mono(s: Seq<i32>, i: int, lo: int, hi: int, top: int)
    requires
        hi <= top,
    ensures
        triples_with(s, i, lo, hi) <= triples_with(s, i, lo, top),
    decreases top - hi,
{
    if hi < top {
        lemma_triples_with_mono(s, i, lo, hi, top - 1);
    }
}

proof fn lemma_zero_triples_mono(s: Seq<i32>, n: int, top: int)
    requires
        n <= top,
    ensures
        zero_triples(s, n) <= zero_triples(s, top),
    decreases top - n,
{
    if n < top {
        lemma_zero_triples_mono(s, n, top - 1);
    }
}

/// Counts the pairs `i < j` with `list[i] + list[j] == 0`.
pub fn two_sum(list: &[i32]) -> (r: usize)
    requires
        zero_pairs(list@, list@.len() as int) <= usize::MAX,
    ensures
        r == zero_pairs(list@, list@.len() as int),
{
    let len = list.len();
    let mut count: usize = 0;
    let mut i: usize = 0;
    while i < len
        invariant
            len == list@.len(),
            i <= len,
            count == zero_pairs(list@, i as int),
            zero_pairs(list@, len as int) <= usize::MAX,
        decreases len - i,
    {
        let mut j = i + 1;
        while j < len
            invariant
                len == list@.len(),
                i < len,
                i + 1 <= j <= len,
                count == zero_pairs(list@, i as int) + pair_hits(list@, i as int, i + 1, j as int),
                zero_pairs(list@, len as int) <= usize::MAX,
            decreases len - j,
        {
            proof {
                lemma_pair_hits_mono(list@, i as int, i + 1, j + 1, len as int);
                lemma_zero_pairs_mono(list@, i + 1, len as int);
            }
            if list[i] as i64 + list[j] as i64 == 0 {
                count += 1;
            }
            j += 1;
        }
        i += 1;
    }
    count
}

/// Counts the triples `i < j < k` with `list[i] + list[j] + list[k] == 0`.
pub fn three_sum(list: &[i32]) -> (r: usize)
    requires
        zero_triples(list@, list@.len() as int) <= usize::MAX,
    ensures
        r == zero_triples(list@, list@.len() as int),
{
    let len = list.len();
    let mut count: usize = 0;
    let mut i: usize = 0;
    while i < len
        invariant
            len == list@.len(),
            i <= len,
            count == zero_triples(list@, i as int),
            zero_triples(list@, len as int) <= usize::MAX,
        decreases len - i,
    {
        let mut j = i + 1;
        while j < len
            invariant
                len == list@.len(),
                i < len,
                i + 1 <= j <= len,
                count == zero_triples(list@, i as int) + triples_with(list@, i as int, i + 1, j as int),
                zero_triples(list@, len as int) <= usize::MAX,
            decreases len - j,
        {
            let mut k = j + 1;
            while k < len
                invariant
                    len == list@.len(),
                    i < j < len,
                    j + 1 <= k <= len,
                    count == zero_triples(list@, i as int) + triples_with(list@, i as int, i + 1, j as int)
                        + triple_hits(list@, i as int, j as int, j + 1, k as int),
                    zero_triples(list@, len as int) <= usize::MAX,
                decreases len - k,
            {
                proof {
                    lemma_triple_hits_mono(list@, i as int, j as int, j + 1, k + 1, len as int);
                    lemma_triples_with_mono(list@, i as int, i + 1, j + 1, len as int);
                    lemma_zero_triples_mono(list@, i + 1, len as int);
                }
                if list[i] as i64 + list[j] as i64 + list[k] as i64 == 0 {
                    count += 1;
                }
                k += 1;
            }
            j += 1;
        }
        i += 1;
    }
    count
}

/// In a sequence without repeats, the only partner of `s[i]` is `s[j]`.
proof fn lemma_pair_hits_one(s: Seq<i32>, i: int, j: int, lo: int, hi: int)
    requires
        s.no_duplicates(),
        0 <= i < s.len(),
        0 <= j < s.len(),
        s[i] + s[j] == 0,
        0 <= lo,
        hi <= s.len(),
    ensures
        pair_hits(s, i, lo, hi) == if lo <= j < hi { 1nat } else { 0nat },
    decreases hi - lo,
{
    if hi > lo {
        lemma_pair_hits_one(s, i, j, lo, hi - 1);
        if s[i] + s[hi - 1] == 0 {
            assert(s[hi - 1] == s[j]);
            assert(hi - 1 == j);
        }
    }
}

/// With no partner for `s[i]`, there is nothing to count.
proof fn lemma_pair_hits_none(s: Seq<i32>, i: int, lo: int, hi: int)
    requires
        forall|k: int| 0 <= k < s.len() ==> s[i] + #[trigger] s[k] != 0,
        0 <= lo,
        hi <= s.len(),
    ensures
        pair_hits(s, i, lo, hi) == 0,
    decreases hi - lo,
{
    if hi > lo {
        lemma_pair_hits_none(s, i, lo, hi - 1);
    }
}

/// In a sequence without repeats, the only key completing `s[i] + s[j]` to zero is `s[k]`.
proof fn lemma_triple_hits_one(s: Seq<i32>, i: int, j: int, k: int, lo: int, hi: int)
    requires
        s.no_duplicates(),
        0 <= i < s.len(),
        0 <= j < s.len(),
        0 <= k < s.len(),
        s[i] + s[j] + s[k] == 0,
        0 <= lo,
        hi <= s.len(),
    ensures
        triple_hits(s, i, j, lo, hi) == if lo <= k < hi { 1nat } else { 0nat },
    decreases hi - lo,
{
    if hi > lo {
        lemma_triple_hits_one(s, i, j, k, lo, hi - 1);
        if s[i] + s[j] + s[hi - 1] == 0 {
            assert(s[hi - 1] == s[k]);
            assert(hi - 1 == k);
        }
    }
}

proof fn lemma_triple_hits_none(s: Seq<i32>, i: int, j: int, lo: int, hi: int)
    requires
        forall|k: int| 0 <= k < s.len() ==> s[i] + s[j] + #[trigger] s[k] != 0,
        0 <= lo,
        hi <= s.len(),
    ensures
        triple_hits(s, i, j, lo, hi) == 0,
    decreases hi - lo,
{
    if hi > lo {
        lemma_triple_hits_none(s, i, j, lo, hi - 1);
    }
}

/// Rearranging keys keeps them free of repeats.
proof fn lemma_same_keys_no_duplicates(s: Seq<i32>, t: Seq<i32>)
    requires
        s.no_duplicates(),
        t.to_multiset() == s.to_multiset(),
    ensures
        t.no_duplicates(),
{
    s.lemma_multiset_has_no_duplicates();
    t.lemma_multiset_has_no_duplicates_conv();
}

/// Sorts `list`, then counts the pairs `i < j` with `list[i] + list[j] == 0` by searching for
/// the partner of each key. The count is exact when no key repeats.
pub fn two_sum_fast(list: &mut [i32]) -> (r: usize)
    ensures
        ascending(final(list)@),
        final(list)@.to_multiset() == old(list)@.to_multiset(),
        old(list)@.no_duplicates() ==> r == zero_pairs(final(list)@, final(list)@.len() as int),
{
    sort_keys(list);
    let len = list.len();
    proof {
        if old(list)@.no_duplicates() {
            lemma_same_keys_no_duplicates(old(list)@, list@);
        }
    }
    let mut count: usize = 0;
    let mut i: usize = 0;
    while i < len
        invariant
            len == list@.len(),
            i <= len,
            count <= i,
            ascending(list@),
            old(list)@.no_duplicates() ==> list@.no_duplicates(),
            old(list)@.no_duplicates() ==> count == zero_pairs(list@, i as int),
        decreases len - i,
    {
        let target = -(list[i] as i64);
        let ghost s = list@;
        let mut found = false;
        if i32::MIN as i64 <= target && target <= i32::MAX as i64 {
            let key = target as i32;
            match search_key(list, &key) {
                Ok(j) => {
                    proof {
                        if s.no_duplicates() {
                            lemma_pair_hits_one(s, i as int, j as int, i + 1, len as int);
                        }
                    }
                    if i < j {
                        found = true;
                    }
                },
                Err(_) => {
                    proof {
                        assert forall|k: int| 0 <= k < s.len() implies s[i as int] + #[trigger] s[k] != 0 by {
                            if s[i as int] + s[k] == 0 {
                                assert(s[k] == key);
                            }
                        }
                        lemma_pair_hits_none(s, i as int, i + 1, len as int);
                    }
                },
            }
        } else {
            proof {
                lemma_pair_hits_none(s, i as int, i + 1, len as int);
            }
        }
        if found {
            count += 1;
        }
        i += 1;
    }
    count
}

/// Sorts `list`, then counts the triples `i < j < k` with `list[i] + list[j] + list[k] == 0`
/// by searching, for each pair, the key that completes it. The count is exact when no key
/// repeats.
pub fn three_sum_binary(list: &mut [i32]) -> (r: usize)
    requires
        old(list)@.len() * old(list)@.len() <= usize::MAX,
    ensures
        ascending(final(list)@),
        final(list)@.to_multiset() == old(list)@.to_multiset(),
        old(list)@.no_duplicates() ==> r == zero_triples(final(list)@, final(list)@.len() as int),
{
    sort_keys(list);
    let len = list.len();
    proof {
        if old(list)@.no_duplicates() {
            lemma_same_keys_no_duplicates(old(list)@, list@);
        }
        assert(list@.to_multiset().len() == old(list)@.to_multiset().len());
        assert(list@.len() == old(list)@.len());
    }
    let mut count: usize = 0;
    let mut i: usize = 0;
    while i < len
        invariant
            len == list@.len(),
            len * len <= usize::MAX,
            i <= len,
            count <= i * len,
            ascending(list@),
            old(list)@.no_duplicates() ==> list@.no_duplicates(),
            old(list)@.no_duplicates() ==> count == zero_triples(list@, i as int),
        decreases len - i,
    {
        let mut j = i + 1;
        while j < len
            invariant
                len == list@.len(),
                len * len <= usize::MAX,
                i < len,
                i + 1 <= j <= len,
                count <= i * len + j,
                ascending(list@),
                old(list)@.no_duplicates() ==> list@.no_duplicates(),
                old(list)@.no_duplicates() ==> count == zero_triples(list@, i as int) + triples_with(list@, i as int, i + 1, j as int),
            decreases len - j,
        {
            let target = -(list[i] as i64) - (list[j] as i64);
            let ghost s = list@;
            let mut found = false;
            if i32::MIN as i64 <= target && target <= i32::MAX as i64 {
                let key = target as i32;
                match search_key(list, &key) {
                    Ok(k) => {
                        proof {
                            if s.no_duplicates() {
                                lemma_triple_hits_one(s, i as int, j as int, k as int, j + 1, len as int);
                            }
                        }
                        if j < k {
                            found = true;
                        }
                    },
                    Err(_) => {
                        proof {
                            assert forall|k: int| 0 <= k < s.len() implies s[i as int] + s[j as int] + #[trigger] s[k] != 0 by {
                                if s[i as int] + s[j as int] + s[k] == 0 {
                                    assert(s[k] == key);
                                }
                            }
                            lemma_triple_hits_none(s, i as int, j as int, j + 1, len as int);
                        }
                    },
                }
            } else {
                proof {
                    lemma_triple_hits_none(s, i as int, j as int, j + 1, len as int);
                }
            }
            proof {
                assert(i * len + j + 1 <= len * len) by (nonlinear_arith)
                    requires
                        i < len,
                        j < len,
                ;
            }
            if found {
                count += 1;
            }
            j += 1;
        }
        proof {
            assert(i * len + len == (i + 1) * len) by (nonlinear_arith);
        }
        i += 1;
    }
    count
}

} // verus!
