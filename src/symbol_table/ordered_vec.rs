//! A symbol table that keeps its keys in a sorted array.
use crate::binary_search::binary_search;
use vstd::prelude::*;

verus! {

/// Each key is smaller than the next.
pub open spec fn strictly_sorted(s: Seq<i64>) -> bool {
    forall|i: int, j: int| 0 <= i < j < s.len() ==> s[i] < s[j]
}

/// A symbol table over integer keys: the keys in increasing order, each value at the
/// position of its key.
pub struct OrderedVecST<V> {
    keys: Vec<i64>,
    values: Vec<V>,
}

impl<V> View for OrderedVecST<V> {
    type V = Map<i64, V>;

    closed spec fn view(&self) -> Map<i64, V> {
        Map::new(|k: i64| self.keys@.contains(k), |k: i64| self.values@[self.keys@.index_of(k)])
    }
}

impl<V> OrderedVecST<V> {
    /// The keys, in increasing order.
    pub closed spec fn key_seq(&self) -> Seq<i64> {
        self.keys@
    }

    pub closed spec fn wf(&self) -> bool {
        strictly_sorted(self.keys@) && self.keys@.len() == self.values@.len()
    }

    proof fn lemma_index(&self, k: i64, i: int)
        requires
            self.wf(),
            0 <= i < self.keys@.len(),
            self.keys@[i] == k,
        ensures
            self.keys@.index_of(k) == i,
            self@.contains_key(k),
            self@[k] == self.values@[i],
    {
        let j = self.keys@.index_of(k);
        assert(self.keys@.contains(k));
        if j < i {
            assert(self.keys@[j] < self.keys@[i]);
        } else if j > i {
            assert(self.keys@[i] < self.keys@[j]);
        }
    }

    /// The keys, in increasing order.
    pub fn keys(&self) -> (r: &Vec<i64>)
        requires
            self.wf(),
        ensures
            r@ == self.key_seq(),
            strictly_sorted(r@),
            forall|k: i64| #[trigger] self@.contains_key(k) <==> r@.contains(k),
    {
        &self.keys
    }

    pub fn new() -> (r: Self)
        ensures
            r.wf(),
            r@ == Map::<i64, V>::empty(),
    {
        let r = OrderedVecST { keys: Vec::new(), values: Vec::new() };
        assert(r@ =~= Map::<i64, V>::empty());
        r
    }

    /// Sets the value of `key`, adding the key if it is new.
    pub fn put(&mut self, key: i64, value: V)
        requires
            old(self).wf(),
        ensures
            final(self).wf(),
            final(self)@ == old(self)@.insert(key, value),
    {
        let ghost old_keys = self.keys@;
        let ghost old_values = self.values@;
        match binary_search(self.keys.as_slice(), &key) {
            Ok(i) => {
                self.values.set(i, value);
                proof {
                    assert forall|k: i64| self@.contains_key(k) implies #[trigger] self@[k] == old(self)@.insert(key, value)[k] by {
                        let j = old_keys.index_of(k);
                        old(self).lemma_index(k, j);
                        self.lemma_index(k, j);
                    }
                    assert(self@ =~= old(self)@.insert(key, value));
                }
            },
            Err(i) => {
                self.keys.insert(i, key);
                self.values.insert(i, value);
                proof {
                    let nk = self.keys@;
                    assert(nk == old_keys.insert(i as int, key));
                    assert forall|a: int, b: int| 0 <= a < b < nk.len() implies nk[a] < nk[b] by {
                        if a < i && b == i {
                        } else if a == i && b > i {
                            assert(nk[b] == old_keys[b - 1]);
                        } else if a < i && b > i {
                            assert(nk[b] == old_keys[b - 1]);
                        } else if a > i {
                            assert(nk[a] == old_keys[a - 1] && nk[b] == old_keys[b - 1]);
                        }
                    }
                    assert forall|k: i64| #[trigger] self@.contains_key(k) <==> old(self)@.insert(key, value).contains_key(k) by {
                        if nk.contains(k) {
                            let j = choose|j: int| 0 <= j < nk.len() && nk[j] == k;
                            if j < i {
                                assert(old_keys[j] == k);
                            } else if j > i {
                                assert(old_keys[j - 1] == k);
                            }
                        }
                        if old_keys.contains(k) {
                            let j = choose|j: int| 0 <= j < old_keys.len() && old_keys[j] == k;
                            if j < i {
                                assert(nk[j] == k);
                            } else {
                                assert(nk[j + 1] == k);
                            }
                        }
                        if k == key {
                            assert(nk[i as int] == k);
                        }
                    }
                    assert forall|k: i64| self@.contains_key(k) implies #[trigger] self@[k] == old(self)@.insert(key, value)[k] by {
                        if k == key {
                            self.lemma_index(k, i as int);
                        } else {
                            let j = choose|j: int| 0 <= j < old_keys.len() && old_keys[j] == k;
                            old(self).lemma_index(k, j);
                            if j < i {
                                self.lemma_index(k, j);
                            } else {
                                self.lemma_index(k, j + 1);
                            }
                        }
                    }
                    assert(self@ =~= old(self)@.insert(key, value));
                }
            },
        }
    }

    /// The value of `key`, if it is there.
    pub fn get(&self, key: &i64) -> (r: Option<&V>)
        requires
            self.wf(),
        ensures
            r is None <==> !self@.contains_key(*key),
            r matches Some(v) ==> *v == self@[*key],
    {
        match binary_search(self.keys.as_slice(), key) {
            Ok(i) => {
                proof {
                    self.lemma_index(*key, i as int);
                }
                Some(&self.values[i])
            },
            Err(_) => None,
        }
    }

    /// Removes `key` and its value, if it is there.
    pub fn delete(&mut self, key: i64)
        requires
            old(self).wf(),
        ensures
            final(self).wf(),
            final(self)@ == old(self)@.remove(key),
    {
        let ghost old_keys = self.keys@;
        match binary_search(self.keys.as_slice(), &key) {
            Ok(i) => {
                self.keys.remove(i);
                self.values.remove(i);
                proof {
                    let nk = self.keys@;
                    assert forall|a: int, b: int| 0 <= a < b < nk.len() implies nk[a] < nk[b] by {
                        if a < i && b >= i {
                            assert(nk[b] == old_keys[b + 1]);
                        } else if a >= i {
                            assert(nk[a] == old_keys[a + 1] && nk[b] == old_keys[b + 1]);
                        }
                    }
                    assert forall|k: i64| #[trigger] self@.contains_key(k) <==> old(self)@.remove(key).contains_key(k) by {
                        if nk.contains(k) {
                            let j = choose|j: int| 0 <= j < nk.len() && nk[j] == k;
                            if j < i {
                                assert(old_keys[j] == k);
                                assert(old_keys[j] < old_keys[i as int]);
                            } else {
                                assert(old_keys[j + 1] == k);
                                assert(old_keys[i as int] < old_keys[j + 1]);
                            }
                        }
                        if old_keys.contains(k) && k != key {
                            let j = choose|j: int| 0 <= j < old_keys.len() && old_keys[j] == k;
                            if j < i {
                                assert(nk[j] == k);
                            } else {
                                assert(j != i);
                                assert(nk[j - 1] == k);
                            }
                        }
                    }
                    assert forall|k: i64| self@.contains_key(k) implies #[trigger] self@[k] == old(self)@.remove(key)[k] by {
                        let j = choose|j: int| 0 <= j < nk.len() && nk[j] == k;
                        self.lemma_index(k, j);
                        if j < i {
                            old(self).lemma_index(k, j);
                        } else {
                            old(self).lemma_index(k, j + 1);
                        }
                    }
                    assert(self@ =~= old(self)@.remove(key));
                }
            },
            Err(_) => {
                assert(self@ =~= old(self)@.remove(key));
            },
        }
    }

    pub fn contains(&self, key: &i64) -> (r: bool)
        requires
            self.wf(),
        ensures
            r == self@.contains_key(*key),
    {
        binary_search(self.keys.as_slice(), key).is_ok()
    }

    pub fn is_empty(&self) -> (r: bool)
        requires
            self.wf(),
        ensures
            r == (self@.dom().len() == 0),
    {
        self.size() == 0
    }

    /// The number of keys.
    pub fn size(&self) -> (r: usize)
        requires
            self.wf(),
        ensures
            r == self@.dom().len(),
    {
        proof {
            assert(self@.dom() =~= self.keys@.to_set());
            assert(self.keys@.no_duplicates()) by {
                assert forall|a: int, b: int| 0 <= a < self.keys@.len() && 0 <= b < self.keys@.len() && a != b implies self.keys@[a]
                    != self.keys@[b] by {
                    if a < b {
                        assert(self.keys@[a] < self.keys@[b]);
                    } else {
                        assert(self.keys@[b] < self.keys@[a]);
                    }
                }
            }
            self.keys@.unique_seq_to_set();
        }
        self.keys.len()
    }
}

} // verus!
