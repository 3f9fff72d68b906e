//! Binary search over sorted slices.
use vstd::prelude::*;

verus! {

/// No key is followed by a smaller one.
pub open spec fn sorted(s: Seq<i64>) -> bool {
    forall|i: int, j: int| 0 <= i <= j < s.len() ==> s[i] <= s[j]
}

/// Finds `target` in the sorted `arr`: `Ok` with a position that holds it, or `Err` with the
/// position where it would be inserted to keep `arr` sorted.
pub fn binary_search(arr: &[i64], target: &i64) -> (r: Result<usize, usize>)
    requires
        sorted(arr@),
    ensures
        r matches Ok(i) ==> i < arr@.len() && arr@[i as int] == *target,
        r matches Err(i) ==> i <= arr@.len() && (forall|j: int| 0 <= j < i ==> #[trigger] arr@[j] < *target) && (forall|j: int|
            i <= j < arr@.len() ==> *target < #[trigger] arr@[j]),
        r is Err <==> !arr@.contains(*target),
{
    let n = arr.len();
    let mut size = n;
    if size == 0 {
        return Err(0);
    }
    let mut base: usize = 0;
    while size > 1
        invariant
            n == arr@.len(),
            1 <= size,
            base + size <= n,
            sorted(arr@),
            forall|j: int| 0 <= j < base ==> #[trigger] arr@[j] <= *target,
            base > 0 ==> arr@[base as int] <= *target,
            forall|j: int| base + size <= j < arr@.len() ==> *target < #[trigger] arr@[j],
        decreases size,
    {
        let half = size / 2;
        let mid = base + half;
        if arr[mid] <= *target {
            base = mid;
        }
        size -= half;
    }
    if arr[base] == *target {
        Ok(base)
    } else {
        let r = if arr[base] < *target {
            base + 1
        } else {
            base
        };
        proof {
            if arr@.contains(*target) {
                let j = choose|j: int| 0 <= j < arr@.len() && arr@[j] == *target;
                if j < base {
                    assert(arr@[j] <= arr@[base as int]);
                }
            }
        }
        Err(r)
    }
}

} // verus!
