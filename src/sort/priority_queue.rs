//! Min-priority queues over integer keys.
use vstd::multiset::Multiset;
use vstd::prelude::*;

verus! {

broadcast use {vstd::seq_lib::group_to_multiset_ensures, vstd::seq_lib::to_multiset_update};

/// Every key of `m` is at least `x`.
pub open spec fn is_lower_bound(m: Multiset<i64>, x: i64) -> bool {
    forall|y: i64| m.count(y) > 0 ==> x <= y
}

/// A priority queue that hands out its smallest key first.
pub trait MinPQ: Sized {
    /// The keys in the queue.
    spec fn keys(&self) -> Multiset<i64>;

    spec fn wf(&self) -> bool;

    fn new() -> (r: Self)
        ensures
            r.wf(),
            r.keys() == Multiset::<i64>::empty();

    fn insert(&mut self, key: i64)
        requires
            old(self).wf(),
        ensures
            final(self).wf(),
            final(self).keys() == old(self).keys().insert(key);

    /// A smallest key.
    fn min(&self) -> (r: &i64)
        requires
            self.wf(),
            self.keys().len() > 0,
        ensures
            self.keys().count(*r) > 0,
            is_lower_bound(self.keys(), *r);

    /// Removes and returns a smallest key.
    fn delete_min(&mut self) -> (r: i64)
        requires
            old(self).wf(),
            old(self).keys().len() > 0,
        ensures
            final(self).wf(),
            old(self).keys().count(r) > 0,
            is_lower_bound(old(self).keys(), r),
            final(self).keys() == old(self).keys().remove(r);

    fn is_empty(&self) -> (r: bool)
        requires
            self.wf(),
        ensures
            r == (self.keys().len() == 0);

    fn size(&self) -> (r: usize)
        requires
            self.wf(),
        ensures
            r == self.keys().len();
}

/// A min-priority queue that keeps its keys in no order.
pub struct UnorderedMinPQ {
    vec: Vec<i64>,
}

impl View for UnorderedMinPQ {
    type V = Multiset<i64>;

    closed spec fn view(&self) -> Multiset<i64> {
        self.vec@.to_multiset()
    }
}

impl UnorderedMinPQ {
    /// The position of the first smallest key.
    fn min_index(&self) -> (r: usize)
        requires
            self.vec@.len() > 0,
        ensures
            r < self.vec@.len(),
            forall|j: int| 0 <= j < self.vec@.len() ==> self.vec@[r as int] <= #[trigger] self.vec@[j],
    {
        let mut m: usize = 0;
        let mut i: usize = 1;
        while i < self.vec.len()
            invariant
                1 <= i <= self.vec@.len(),
                m < i,
                forall|j: int| 0 <= j < i ==> self.vec@[m as int] <= #[trigger] self.vec@[j],
            decreases self.vec@.len() - i,
        {
            if self.vec[i] < self.vec[m] {
                m = i;
            }
            i += 1;
        }
        m
    }
}

impl MinPQ for UnorderedMinPQ {
    closed spec fn keys(&self) -> Multiset<i64> {
        self@
    }

    closed spec fn wf(&self) -> bool {
        true
    }

    fn new() -> (r: Self) {
        let r = UnorderedMinPQ { vec: Vec::new() };
        assert(r.vec@ =~= Seq::<i64>::empty());
        r
    }

    fn insert(&mut self, key: i64) {
        self.vec.push(key);
    }

    /// A smallest key.
    fn min(&self) -> (r: &i64) {
        let m = self.min_index();
        proof {
            assert(self.vec@.contains(self.vec@[m as int]));
            assert forall|y: i64| self@.count(y) > 0 implies self.vec@[m as int] <= y by {
                assert(self.vec@.contains(y));
                let j = choose|j: int| 0 <= j < self.vec@.len() && self.vec@[j] == y;
            }
        }
        &self.vec[m]
    }

    /// Removes and returns a smallest key.
    fn delete_min(&mut self) -> (r: i64) {
        let m = self.min_index();
        proof {
            assert(self.vec@.contains(self.vec@[m as int]));
            assert forall|y: i64| self@.count(y) > 0 implies self.vec@[m as int] <= y by {
                assert(self.vec@.contains(y));
                let j = choose|j: int| 0 <= j < self.vec@.len() && self.vec@[j] == y;
            }
        }
        self.vec.remove(m)
    }

    fn is_empty(&self) -> (r: bool) {
        self.vec.is_empty()
    }

    fn size(&self) -> (r: usize) {
        self.vec.len()
    }
}

/// Each key below the root is at least its parent (`i / 2`), the pair `(k / 2, k)` excepted.
pub open spec fn ordered_except_parent(v: Seq<i64>, k: int) -> bool {
    forall|i: int| 2 <= i < v.len() && i != k ==> v[i / 2] <= #[trigger] v[i]
}

/// Each key below the root is at least its parent, the children of `k` excepted.
pub open spec fn ordered_except_children(v: Seq<i64>, k: int) -> bool {
    forall|i: int| 2 <= i < v.len() && i / 2 != k ==> v[i / 2] <= #[trigger] v[i]
}

/// Each key below the root is at least its parent.
pub open spec fn heap_ordered(v: Seq<i64>) -> bool {
    forall|i: int| 2 <= i < v.len() ==> v[i / 2] <= #[trigger] v[i]
}

/// The root of a heap is a smallest key.
proof fn lemma_root_is_min(v: Seq<i64>, i: int)
    requires
        heap_ordered(v),
        1 <= i < v.len(),
    ensures
        v[1] <= v[i],
    decreases i,
{
    if i >= 2 {
        lemma_root_is_min(v, i / 2);
    }
}

/// The parent of `c` is no larger than the children of `c`.
pub open spec fn below_grandparent(v: Seq<i64>, c: int) -> bool {
    c >= 2 ==> forall|d: int| (d == 2 * c || d == 2 * c + 1) && d < v.len() ==> v[c / 2] <= #[trigger] v[d]
}

/// With no child smaller than it, the key at `c` completes the heap order.
proof fn lemma_sink_done(v: Seq<i64>, c: int)
    requires
        1 <= c,
        ordered_except_children(v, c),
        forall|d: int| (d == 2 * c || d == 2 * c + 1) && d < v.len() ==> v[c] <= #[trigger] v[d],
    ensures
        heap_ordered(v),
{
    assert forall|i: int| 2 <= i < v.len() implies v[i / 2] <= #[trigger] v[i] by {
        if i / 2 == c {
            assert(i == 2 * c || i == 2 * c + 1);
        }
    }
}

/// Swapping the key at `c` with its smaller child `k`, when that child is smaller, moves the
/// exception down to `k`.
proof fn lemma_sink_step(v: Seq<i64>, c: int, k: int)
    requires
        1 <= c,
        k == 2 * c || k == 2 * c + 1,
        k < v.len(),
        v[k] < v[c],
        forall|d: int| (d == 2 * c || d == 2 * c + 1) && d < v.len() ==> v[k] <= #[trigger] v[d],
        ordered_except_children(v, c),
        below_grandparent(v, c),
    ensures
        ordered_except_children(v.update(c, v[k]).update(k, v[c]), k),
        below_grandparent(v.update(c, v[k]).update(k, v[c]), k),
{
    let w = v.update(c, v[k]).update(k, v[c]);
    assert(k / 2 == c);
    assert forall|i: int| 2 <= i < w.len() && i / 2 != k implies w[i / 2] <= #[trigger] w[i] by {
        if i == k {
        } else if i / 2 == c {
            assert(i == 2 * c || i == 2 * c + 1);
        } else if i == c {
            assert(v[c / 2] <= v[k]);
        } else {
            assert(w[i] == v[i]);
            assert(v[i / 2] <= v[i]);
        }
    }
    assert forall|d: int| (d == 2 * k || d == 2 * k + 1) && d < w.len() implies w[k / 2] <= #[trigger] w[d] by {
        assert(d / 2 == k);
        assert(v[k] <= v[d]);
    }
}

/// A min-priority queue as a binary heap in `vec[1..]`; `vec[0]` is unused.
pub struct HeapMinPQ {
    vec: Vec<i64>,
}

impl View for HeapMinPQ {
    type V = Multiset<i64>;

    closed spec fn view(&self) -> Multiset<i64> {
        self.vec@.drop_first().to_multiset()
    }
}

proof fn lemma_swap_keeps_keys(v: Seq<i64>, i: int, j: int)
    requires
        1 <= i < v.len(),
        1 <= j < v.len(),
    ensures
        v.update(i, v[j]).update(j, v[i]).drop_first().to_multiset() == v.drop_first().to_multiset(),
{
    let d = v.drop_first();
    assert(v.update(i, v[j]).update(j, v[i]).drop_first() =~= d.update(i - 1, d[j - 1]).update(j - 1, d[i - 1]));
    let d1 = d.update(i - 1, d[j - 1]);
    assert(d1[j - 1] == d[j - 1] || i == j);
    assert(d1.to_multiset() == d.to_multiset().insert(d[j - 1]).remove(d[i - 1]));
    assert(d1.update(j - 1, d[i - 1]).to_multiset() == d1.to_multiset().insert(d[i - 1]).remove(d1[j - 1]));
    assert(d.to_multiset().count(d[i - 1]) > 0) by {
        assert(d.contains(d[i - 1]));
    }
    assert(d.to_multiset().insert(d[j - 1]).remove(d[i - 1]).insert(d[i - 1]).remove(d1[j - 1]) =~= d.to_multiset()) by {
        if i != j {
            assert(d.to_multiset().count(d[j - 1]) > 0) by {
                assert(d.contains(d[j - 1]));
            }
        }
    }
}

impl HeapMinPQ {
    /// The slots of the heap: the unused one, then the keys in heap order.
    pub closed spec fn slots(&self) -> Seq<i64> {
        self.vec@
    }

    fn max_index(&self) -> (r: usize)
        requires
            self.vec@.len() >= 1,
        ensures
            r == self.vec@.len() - 1,
    {
        self.vec.len() - 1
    }

    fn exchange(&mut self, i: usize, j: usize)
        requires
            1 <= i < old(self).vec@.len(),
            1 <= j < old(self).vec@.len(),
        ensures
            final(self).vec@ == old(self).vec@.update(i as int, old(self).vec@[j as int]).update(j as int, old(self).vec@[i as int]),
            final(self)@ == old(self)@,
    {
        let a = self.vec[i];
        let b = self.vec[j];
        self.vec.set(i, b);
        self.vec.set(j, a);
        proof {
            lemma_swap_keeps_keys(old(self).vec@, i as int, j as int);
        }
    }

    /// Moves the last key up until its parent is no larger.
    pub fn swim(&mut self)
        requires
            old(self).slots().len() >= 1,
            ordered_except_parent(old(self).slots(), old(self).slots().len() - 1),
        ensures
            final(self).wf(),
            final(self)@ == old(self)@,
    {
        let mut current_index = self.max_index();
        while current_index > 1 && self.vec[current_index] < self.vec[current_index / 2]
            invariant
                current_index < self.vec@.len(),
                self.vec@.len() >= 2 ==> current_index >= 1,
                self@ == old(self)@,
                ordered_except_parent(self.vec@, current_index as int),
                current_index >= 2 ==> forall|c: int|
                    (c == 2 * current_index as int || c == 2 * current_index as int + 1) && c < self.vec@.len() ==> self.vec@[current_index as int / 2]
                        <= #[trigger] self.vec@[c],
            decreases current_index,
        {
            let parent_index = current_index / 2;
            let ghost v = self.vec@;
            self.exchange(parent_index, current_index);
            proof {
                let w = self.vec@;
                let c = current_index as int;
                let p = parent_index as int;
                assert forall|i: int| 2 <= i < w.len() && i != p implies w[i / 2] <= #[trigger] w[i] by {
                    if i == c {
                    } else if i / 2 == p {
                        assert(v[i / 2] <= v[i]);
                    } else if i / 2 == c {
                        assert(i == 2 * c || i == 2 * c + 1);
                    } else if i == p {
                    } else {
                        assert(w[i] == v[i]);
                        assert(v[i / 2] <= v[i]);
                    }
                }
                if p >= 2 {
                    assert forall|d: int| (d == 2 * p || d == 2 * p + 1) && d < w.len() implies w[p / 2] <= #[trigger] w[d] by {
                        assert(v[p / 2] <= v[p]);
                        if d != c {
                            assert(v[p] <= v[d]);
                        }
                    }
                }
            }
            current_index = parent_index;
        }
        proof {
            let v = self.vec@;
            let c = current_index as int;
            assert forall|i: int| 2 <= i < v.len() implies v[i / 2] <= #[trigger] v[i] by {
                if i == c {
                }
            }
        }
    }

    /// Moves the root key down until no child is smaller.
    pub fn sink(&mut self)
        requires
            old(self).slots().len() >= 1,
            ordered_except_children(old(self).slots(), 1),
        ensures
            final(self).wf(),
            final(self)@ == old(self)@,
    {
        let mut current_index: usize = 1;
        let max_index = self.max_index();
        loop
            invariant
                max_index == self.vec@.len() - 1,
                1 <= current_index,
                current_index <= max_index || (current_index == 1 && max_index == 0),
                self@ == old(self)@,
                ordered_except_children(self.vec@, current_index as int),
                below_grandparent(self.vec@, current_index as int),
            ensures
                heap_ordered(self.vec@),
                self@ == old(self)@,
            decreases self.vec@.len() - current_index,
        {
            if current_index > max_index / 2 {
                proof {
                    lemma_sink_done(self.vec@, current_index as int);
                }
                break;
            }
            let left_child_index = current_index * 2;
            let right_child_index = left_child_index + 1;
            let child_index: usize = if right_child_index > max_index || self.vec[left_child_index] < self.vec[right_child_index] {
                left_child_index
            } else {
                right_child_index
            };
            if self.vec[current_index] <= self.vec[child_index] {
                proof {
                    lemma_sink_done(self.vec@, current_index as int);
                }
                break;
            }
            let ghost v = self.vec@;
            self.exchange(current_index, child_index);
            proof {
                lemma_sink_step(v, current_index as int, child_index as int);
            }
            current_index = child_index;
        }
    }

}

impl MinPQ for HeapMinPQ {
    closed spec fn keys(&self) -> Multiset<i64> {
        self@
    }

    /// Keys of the heap, with the unused slot in front.
    closed spec fn wf(&self) -> bool {
        self.vec@.len() >= 1 && heap_ordered(self.vec@)
    }

    fn new() -> (r: Self) {
        let r = HeapMinPQ { vec: vec![0] };
        assert(r.vec@.drop_first() =~= Seq::<i64>::empty());
        r
    }

    fn insert(&mut self, key: i64) {
        let ghost v = self.vec@;
        self.vec.push(key);
        assert(self.vec@.drop_first() =~= v.drop_first().push(key));
        self.swim();
    }

    /// A smallest key.
    fn min(&self) -> (r: &i64) {
        proof {
            let d = self.vec@.drop_first();
            assert(d[0] == self.vec@[1]);
            assert(d.contains(self.vec@[1]));
            assert forall|y: i64| self@.count(y) > 0 implies self.vec@[1] <= y by {
                assert(d.contains(y));
                let j = choose|j: int| 0 <= j < d.len() && d[j] == y;
                lemma_root_is_min(self.vec@, j + 1);
            }
        }
        &self.vec[1]
    }

    /// Removes and returns a smallest key.
    fn delete_min(&mut self) -> (r: i64) {
        let ghost v = self.vec@;
        proof {
            let d = v.drop_first();
            assert(d[0] == v[1]);
            assert(d.contains(v[1]));
            assert forall|y: i64| self@.count(y) > 0 implies v[1] <= y by {
                assert(d.contains(y));
                let j = choose|j: int| 0 <= j < d.len() && d[j] == y;
                lemma_root_is_min(v, j + 1);
            }
        }
        let min = self.vec.swap_remove(1);
        proof {
            let d = v.drop_first();
            let w = self.vec@;
            assert(w.drop_first() =~= d.update(0, d.last()).drop_last());
            let e = d.update(0, d.last());
            assert(e.drop_last() =~= e.remove(e.len() - 1));
            assert(e.to_multiset() == d.to_multiset().insert(d.last()).remove(d[0]));
            assert(e[e.len() - 1] == d.last() || d.len() == 1);
            assert(d.contains(d.last()));
            assert(w.drop_first().to_multiset() =~= d.to_multiset().remove(v[1]));
            assert forall|i: int| 2 <= i < w.len() && i / 2 != 1 implies w[i / 2] <= #[trigger] w[i] by {
                assert(w[i] == v[i]);
                assert(w[i / 2] == v[i / 2]);
            }
        }
        self.sink();
        min
    }

    fn is_empty(&self) -> (r: bool) {
        self.size() == 0
    }

    fn size(&self) -> (r: usize) {
        self.vec.len() - 1
    }
}

} // verus!
