//! Union-find over the sites `0..n`.
use vstd::prelude::*;
use vstd::set_lib::{lemma_int_range, lemma_len_subset, lemma_map_size, lemma_set_disjoint_lens, set_int_range};

verus! {

broadcast use vstd::seq_lib::seq_to_set_is_finite;

pub trait UnionFind: Sized {
    /// The number of sites.
    spec fn sites(&self) -> nat;

    /// The label of the component of site `p`.
    spec fn label(&self, p: usize) -> usize;

    /// The number of components.
    spec fn components(&self) -> nat;

    spec fn wf(&self) -> bool;

    /// `count` sites, each in a component of its own.
    fn new(count: usize) -> (r: Self)
        ensures
            r.wf(),
            r.sites() == count,
            r.components() == count,
            forall|p: usize, q: usize| p < count && q < count ==> (r.label(p) == r.label(q) <==> p == q);

    /// Joins the components of `p` and `q`.
    fn union(&mut self, p: usize, q: usize)
        requires
            old(self).wf(),
            p < old(self).sites(),
            q < old(self).sites(),
        ensures
            final(self).wf(),
            final(self).sites() == old(self).sites(),
            forall|x: usize, y: usize|
                #![trigger final(self).label(x), final(self).label(y)]
                x < old(self).sites() && y < old(self).sites() ==> (final(self).label(x) == final(self).label(y) <==> (
                old(self).label(x) == old(self).label(y) || (old(self).label(x) == old(self).label(p) && old(self).label(q)
                    == old(self).label(y)) || (old(self).label(x) == old(self).label(q) && old(self).label(p) == old(
                self).label(y)))),
            final(self).components() == if old(self).label(p) == old(self).label(q) {
                old(self).components()
            } else {
                (old(self).components() - 1) as nat
            };

    /// The label of the component of `p`.
    fn find(&mut self, p: usize) -> (r: usize)
        requires
            old(self).wf(),
            p < old(self).sites(),
        ensures
            final(self).wf(),
            final(self).sites() == old(self).sites(),
            final(self).components() == old(self).components(),
            forall|x: usize| x < old(self).sites() ==> final(self).label(x) == old(self).label(x),
            r == old(self).label(p);

    /// The number of components.
    fn count(&self) -> (r: usize)
        requires
            self.wf(),
        ensures
            r == self.components();
}

/// Union-find that keeps the label of each site's component in an array.
pub struct QuickFind {
    ids: Vec<usize>,
    count: usize,
}

proof fn lemma_range_set_len(n: usize)
    ensures
        Seq::new(n as nat, |i: int| i as usize).to_set().len() == n,
{
    let s = Seq::new(n as nat, |i: int| i as usize);
    let ints = set_int_range(0, n as int);
    lemma_int_range(0, n as int);
    let f = |x: usize| x as int;
    assert(s.to_set().map(f) =~= ints) by {
        assert forall|i: int| ints.contains(i) implies s.to_set().map(f).contains(i) by {
            assert(s[i] == i as usize);
            assert(s.to_set().contains(i as usize));
        }
    }
    lemma_map_size(s.to_set(), ints, f);
}

impl UnionFind for QuickFind {
    closed spec fn sites(&self) -> nat {
        self.ids@.len()
    }

    closed spec fn label(&self, p: usize) -> usize {
        self.ids@[p as int]
    }

    closed spec fn components(&self) -> nat {
        self.count as nat
    }

    closed spec fn wf(&self) -> bool {
        self.count == self.ids@.to_set().len()
    }

    fn new(count: usize) -> (r: Self) {
        let mut ids: Vec<usize> = Vec::new();
        let mut i: usize = 0;
        while i < count
            invariant
                i <= count,
                ids@ == Seq::new(i as nat, |k: int| k as usize),
            decreases count - i,
        {
            ids.push(i);
            i += 1;
            assert(ids@ =~= Seq::new(i as nat, |k: int| k as usize));
        }
        proof {
            lemma_range_set_len(count);
        }
        QuickFind { ids, count }
    }

    fn union(&mut self, p: usize, q: usize) {
        let p_id = self.find(p);
        let q_id = self.find(q);
        if p_id != q_id {
            let ghost old_ids = self.ids@;
            let mut i: usize = 0;
            while i < self.ids.len()
                invariant
                    self.ids@.len() == old_ids.len(),
                    i <= old_ids.len(),
                    p < old_ids.len(),
                    q < old_ids.len(),
                    p_id == old_ids[p as int],
                    q_id == old_ids[q as int],
                    self.count == old_ids.to_set().len(),
                    forall|k: int|
                        0 <= k < old_ids.len() ==> #[trigger] self.ids@[k] == if k < i && old_ids[k] == p_id {
                            q_id
                        } else {
                            old_ids[k]
                        },
                decreases old_ids.len() - i,
            {
                if self.ids[i] == p_id {
                    self.ids.set(i, q_id);
                }
                i += 1;
            }
            proof {
                let s = self.ids@;
                assert(s.to_set() =~= old_ids.to_set().remove(p_id)) by {
                    assert forall|x: usize| s.to_set().contains(x) <==> old_ids.to_set().remove(p_id).contains(x) by {
                        if s.to_set().contains(x) {
                            let k = choose|k: int| 0 <= k < s.len() && s[k] == x;
                            assert(old_ids.to_set().contains(old_ids[k]));
                            assert(old_ids.to_set().contains(q_id)) by {
                                assert(old_ids[q as int] == q_id);
                            }
                        }
                        if old_ids.to_set().remove(p_id).contains(x) {
                            let k = choose|k: int| 0 <= k < old_ids.len() && old_ids[k] == x;
                            assert(s[k] == x);
                        }
                    }
                }
                assert(old_ids.to_set().contains(p_id)) by {
                    assert(old_ids[p as int] == p_id);
                }
                assert(old_ids.to_set().contains(q_id)) by {
                    assert(old_ids[q as int] == q_id);
                }
                assert(old_ids.to_set().len() >= 2) by {
                    assert(old_ids.to_set().remove(p_id).contains(q_id));
                }
            }
            self.count = self.count - 1;
        }
    }

    fn find(&mut self, p: usize) -> (r: usize) {
        self.ids[p]
    }

    fn count(&self) -> (r: usize) {
        self.count
    }
}

/// Joins each pair in turn and returns the number of components left.
pub fn union_find<U: UnionFind>(uf: &mut U, pairs: &[(usize, usize)]) -> (r: usize)
    requires
        old(uf).wf(),
        forall|i: int| 0 <= i < pairs@.len() ==> #[trigger] pairs@[i].0 < old(uf).sites() && pairs@[i].1 < old(uf).sites(),
    ensures
        final(uf).wf(),
        final(uf).sites() == old(uf).sites(),
        r == final(uf).components(),
        forall|i: int| 0 <= i < pairs@.len() ==> final(uf).label(#[trigger] pairs@[i].0) == final(uf).label(pairs@[i].1),
{
    let mut i: usize = 0;
    while i < pairs.len()
        invariant
            uf.wf(),
            uf.sites() == old(uf).sites(),
            i <= pairs@.len(),
            forall|k: int| 0 <= k < pairs@.len() ==> #[trigger] pairs@[k].0 < old(uf).sites() && pairs@[k].1 < old(uf).sites(),
            forall|k: int| 0 <= k < i ==> uf.label(#[trigger] pairs@[k].0) == uf.label(pairs@[k].1),
        decreases pairs@.len() - i,
    {
        let (p, q) = pairs[i];
        let ghost before = *uf;
        uf.union(p, q);
        proof {
            assert forall|k: int| 0 <= k < i + 1 implies uf.label(#[trigger] pairs@[k].0) == uf.label(pairs@[k].1) by {
                let a = pairs@[k].0;
                let b = pairs@[k].1;
                if k < i {
                    assert(before.label(a) == before.label(b));
                }
            }
        }
        i += 1;
    }
    uf.count()
}

/// The root reached from `x` by following parents; ranks grow along the way up to `top`.
pub open spec fn root_of(ids: Seq<usize>, rank: Seq<nat>, top: nat, x: usize) -> usize
    decreases top - rank[x as int],
{
    if x < ids.len() && ids[x as int] != x && rank[ids[x as int] as int] > rank[x as int] && rank[ids[x as int] as int] <= top {
        root_of(ids, rank, top, ids[x as int])
    } else {
        x
    }
}

/// Parent pointers over `0..n` in which ranks grow strictly from child to parent.
pub open spec fn forest_ok(ids: Seq<usize>, rank: Seq<nat>, top: nat) -> bool {
    &&& rank.len() == ids.len()
    &&& forall|x: int| 0 <= x < ids.len() ==> #[trigger] ids[x] < ids.len()
    &&& forall|x: int| 0 <= x < ids.len() ==> #[trigger] rank[x] <= top
    &&& forall|x: int| 0 <= x < ids.len() && ids[x] != x ==> rank[#[trigger] ids[x] as int] > rank[x]
}

/// The number of roots among the first `k` sites.
pub open spec fn roots_upto(ids: Seq<usize>, k: int) -> nat
    decreases k,
{
    if k <= 0 {
        0
    } else {
        roots_upto(ids, k - 1) + if ids[k - 1] == (k - 1) as usize {
            1nat
        } else {
            0nat
        }
    }
}

proof fn lemma_root_is_root(ids: Seq<usize>, rank: Seq<nat>, top: nat, x: usize)
    requires
        forest_ok(ids, rank, top),
        x < ids.len(),
    ensures
        root_of(ids, rank, top, x) < ids.len(),
        ids[root_of(ids, rank, top, x) as int] == root_of(ids, rank, top, x),
        ids[x as int] != x ==> rank[root_of(ids, rank, top, x) as int] > rank[x as int],
    decreases top - rank[x as int],
{
    if ids[x as int] != x {
        lemma_root_is_root(ids, rank, top, ids[x as int]);
    }
}

/// Raising the bound or the rank of a root changes no root.
proof fn lemma_root_after_rank(ids: Seq<usize>, rank: Seq<nat>, top: nat, rank2: Seq<nat>, top2: nat, x: usize)
    requires
        forest_ok(ids, rank, top),
        forest_ok(ids, rank2, top2),
        x < ids.len(),
    ensures
        root_of(ids, rank2, top2, x) == root_of(ids, rank, top, x),
    decreases top - rank[x as int],
{
    if ids[x as int] != x {
        lemma_root_after_rank(ids, rank, top, rank2, top2, ids[x as int]);
    }
}

/// Pointing `p` straight at its root changes no root.
proof fn lemma_root_after_compress(ids: Seq<usize>, rank: Seq<nat>, top: nat, p: usize, x: usize)
    requires
        forest_ok(ids, rank, top),
        p < ids.len(),
        x < ids.len(),
        forest_ok(ids.update(p as int, root_of(ids, rank, top, p)), rank, top),
    ensures
        root_of(ids.update(p as int, root_of(ids, rank, top, p)), rank, top, x) == root_of(ids, rank, top, x),
    decreases top - rank[x as int],
{
    let r = root_of(ids, rank, top, p);
    let ids2 = ids.update(p as int, r);
    lemma_root_is_root(ids, rank, top, p);
    if x == p {
        if ids[p as int] != p {
            lemma_root_is_root(ids2, rank, top, r);
            assert(ids2[r as int] == r) by {
                if r == p {
                } else {
                    assert(ids2[r as int] == ids[r as int]);
                }
            }
        }
    } else if ids[x as int] != x {
        lemma_root_after_compress(ids, rank, top, p, ids[x as int]);
    }
}

/// Hanging root `a` under root `b` sends the sites of `a` to `b` and leaves the others.
proof fn lemma_root_after_link(ids: Seq<usize>, rank: Seq<nat>, top: nat, rank2: Seq<nat>, top2: nat, a: usize, b: usize, x: usize)
    requires
        forest_ok(ids, rank, top),
        a < ids.len(),
        b < ids.len(),
        a != b,
        ids[a as int] == a,
        ids[b as int] == b,
        forest_ok(ids.update(a as int, b), rank2, top2),
        forest_ok(ids, rank2, top2),
        x < ids.len(),
    ensures
        root_of(ids.update(a as int, b), rank2, top2, x) == if root_of(ids, rank, top, x) == a {
            b
        } else {
            root_of(ids, rank, top, x)
        },
    decreases top - rank[x as int],
{
    let ids2 = ids.update(a as int, b);
    if x == a {
        assert(ids2[b as int] == b);
        assert(root_of(ids2, rank2, top2, b) == b);
        assert(ids2[a as int] == b);
        assert(rank2[ids2[a as int] as int] > rank2[a as int]);
        assert(root_of(ids2, rank2, top2, a) == b);
        assert(root_of(ids, rank, top, a) == a);
    } else if ids[x as int] != x {
        let y = ids[x as int];
        lemma_root_after_link(ids, rank, top, rank2, top2, a, b, y);
        assert(ids2[x as int] == y);
        assert(rank2[ids2[x as int] as int] > rank2[x as int]);
        assert(rank[ids[x as int] as int] > rank[x as int]);
    } else {
        assert(ids2[x as int] == x);
    }
}

proof fn lemma_roots_upto_update(ids: Seq<usize>, j: int, v: usize, k: int)
    requires
        0 <= j < ids.len(),
        0 <= k <= ids.len(),
    ensures
        roots_upto(ids.update(j, v), k) + (if j < k && ids[j] == j as usize { 1nat } else { 0nat }) == roots_upto(ids, k) + (
        if j < k && v == j as usize {
            1nat
        } else {
            0nat
        }),
    decreases k,
{
    if k > 0 {
        lemma_roots_upto_update(ids, j, v, k - 1);
    }
}

proof fn lemma_roots_upto_all(n: usize, k: int)
    requires
        0 <= k <= n,
    ensures
        roots_upto(Seq::new(n as nat, |i: int| i as usize), k) == k,
    decreases k,
{
    if k > 0 {
        lemma_roots_upto_all(n, k - 1);
    }
}

/// Union-find as a forest of parent pointers, compressing paths as it finds roots.
pub struct QuickUnion {
    pub ids: Vec<usize>,
    pub count: usize,
    compressed: bool,
    rank: Ghost<Seq<nat>>,
    top: Ghost<nat>,
}

/// The root of `p`; with `compress`, every site on the way is pointed straight at it.
fn find_root(ids: &mut Vec<usize>, p: usize, compress: bool, Ghost(rank): Ghost<Seq<nat>>, Ghost(top): Ghost<nat>) -> (r: usize)
    requires
        forest_ok(old(ids)@, rank, top),
        p < old(ids)@.len(),
    ensures
        forest_ok(final(ids)@, rank, top),
        final(ids)@.len() == old(ids)@.len(),
        roots_upto(final(ids)@, final(ids)@.len() as int) == roots_upto(old(ids)@, old(ids)@.len() as int),
        forall|x: usize| x < old(ids)@.len() ==> (#[trigger] final(ids)@[x as int] == x <==> old(ids)@[x as int] == x),
        forall|x: usize| x < old(ids)@.len() ==> #[trigger] root_of(final(ids)@, rank, top, x) == root_of(old(ids)@, rank, top, x),
        r == root_of(old(ids)@, rank, top, p),
{
    let ghost n = ids@.len();
    let mut root = p;
    while root != ids[root]
        invariant
            forest_ok(ids@, rank, top),
            root < ids@.len(),
            root_of(ids@, rank, top, root) == root_of(ids@, rank, top, p),
        decreases top - rank[root as int],
    {
        root = ids[root];
    }
    let mut q = p;
    if compress {
        while q != root
            invariant
                forest_ok(ids@, rank, top),
                ids@.len() == n,
                q < n,
                root < n,
                ids@[root as int] == root,
                root_of(ids@, rank, top, q) == root,
                roots_upto(ids@, n as int) == roots_upto(old(ids)@, n as int),
                forall|x: usize| x < n ==> (#[trigger] ids@[x as int] == x <==> old(ids)@[x as int] == x),
                forall|x: usize| x < n ==> #[trigger] root_of(ids@, rank, top, x) == root_of(old(ids)@, rank, top, x),
            decreases top - rank[q as int],
        {
            let next = ids[q];
            let ghost before = ids@;
            proof {
                lemma_root_is_root(before, rank, top, q);
                assert(before[q as int] != q);
            }
            ids.set(q, root);
            proof {
                assert(forest_ok(ids@, rank, top));
                assert forall|x: usize| x < n implies #[trigger] root_of(ids@, rank, top, x) == root_of(before, rank, top, x) by {
                    lemma_root_after_compress(before, rank, top, q, x);
                }
                lemma_roots_upto_update(before, q as int, root, n as int);
                if before[next as int] != next {
                    lemma_root_is_root(before, rank, top, next);
                }
            }
            q = next;
        }
    }
    root
}

impl UnionFind for QuickUnion {
    closed spec fn sites(&self) -> nat {
        self.ids@.len()
    }

    closed spec fn label(&self, p: usize) -> usize {
        root_of(self.ids@, self.rank@, self.top@, p)
    }

    closed spec fn components(&self) -> nat {
        self.count as nat
    }

    closed spec fn wf(&self) -> bool {
        &&& forest_ok(self.ids@, self.rank@, self.top@)
        &&& self.count == roots_upto(self.ids@, self.ids@.len() as int)
    }

    fn new(count: usize) -> (r: Self) {
        let mut ids: Vec<usize> = Vec::new();
        let mut i: usize = 0;
        while i < count
            invariant
                i <= count,
                ids@ == Seq::new(i as nat, |k: int| k as usize),
            decreases count - i,
        {
            ids.push(i);
            i += 1;
            assert(ids@ =~= Seq::new(i as nat, |k: int| k as usize));
        }
        proof {
            lemma_roots_upto_all(count, count as int);
        }
        QuickUnion { ids, count, compressed: true, rank: Ghost(Seq::new(count as nat, |k: int| 0nat)), top: Ghost(0) }
    }

    fn union(&mut self, p: usize, q: usize) {
        let p_id = self.find(p);
        let q_id = self.find(q);
        if p_id != q_id {
            let ghost ids0 = self.ids@;
            let ghost rank0 = self.rank@;
            let ghost top0 = self.top@;
            let ghost n = ids0.len();
            proof {
                lemma_root_is_root(ids0, rank0, top0, p);
                lemma_root_is_root(ids0, rank0, top0, q);
                let bump = if rank0[q_id as int] > rank0[p_id as int] { rank0[q_id as int] } else { rank0[p_id as int] + 1 };
                let rank1 = rank0.update(q_id as int, bump);
                let top1 = if top0 >= bump { top0 } else { bump };
                self.rank = Ghost(rank1);
                self.top = Ghost(top1);
                assert(forest_ok(ids0, rank1, top1));
            }
            self.ids.set(p_id, q_id);
            proof {
                assert(forest_ok(self.ids@, self.rank@, self.top@));
                assert forall|x: usize| x < n implies #[trigger] root_of(self.ids@, self.rank@, self.top@, x) == if root_of(ids0, rank0, top0, x) == p_id {
                    q_id
                } else {
                    root_of(ids0, rank0, top0, x)
                } by {
                    lemma_root_after_link(ids0, rank0, top0, self.rank@, self.top@, p_id, q_id, x);
                }
                lemma_roots_upto_update(ids0, p_id as int, q_id, n as int);
                assert(roots_upto(ids0, n as int) >= 1);
            }
            self.count = self.count - 1;
        }
    }

    fn find(&mut self, p: usize) -> (r: usize) {
        find_root(&mut self.ids, p, self.compressed, self.rank, self.top)
    }

    fn count(&self) -> (r: usize) {
        self.count
    }
}

/// The sites below `n` whose root is `r`.
pub open spec fn members(ids: Seq<usize>, rank: Seq<nat>, top: nat, r: usize) -> Set<usize> {
    Set::new(|x: usize| x < ids.len() && root_of(ids, rank, top, x) == r)
}

proof fn lemma_sites(n: usize)
    ensures
        Set::new(|x: usize| x < n).finite(),
        Set::new(|x: usize| x < n).len() == n,
{
    lemma_range_set_len(n);
    let s = Seq::new(n as nat, |i: int| i as usize);
    assert(s.to_set() =~= Set::new(|x: usize| x < n)) by {
        assert forall|x: usize| Set::new(|x: usize| x < n).contains(x) implies s.to_set().contains(x) by {
            assert(s[x as int] == x);
        }
    }
}

/// Union-find as a forest of parent pointers that hangs the smaller tree under the larger,
/// compressing paths as it finds roots.
pub struct WeightedQuickUnion {
    pub ids: Vec<usize>,
    pub size: Vec<usize>,
    count: usize,
    compressed: bool,
    rank: Ghost<Seq<nat>>,
    top: Ghost<nat>,
}

impl WeightedQuickUnion {
    /// The size of each root is the number of sites under it.
    closed spec fn sizes_ok(&self) -> bool {
        &&& self.size@.len() == self.ids@.len()
        &&& forall|r: usize|
            r < self.ids@.len() && #[trigger] self.ids@[r as int] == r ==> members(self.ids@, self.rank@, self.top@, r).finite()
                && self.size@[r as int] == members(self.ids@, self.rank@, self.top@, r).len()
    }
}

impl UnionFind for WeightedQuickUnion {
    closed spec fn sites(&self) -> nat {
        self.ids@.len()
    }

    closed spec fn label(&self, p: usize) -> usize {
        root_of(self.ids@, self.rank@, self.top@, p)
    }

    closed spec fn components(&self) -> nat {
        self.count as nat
    }

    closed spec fn wf(&self) -> bool {
        &&& forest_ok(self.ids@, self.rank@, self.top@)
        &&& self.count == roots_upto(self.ids@, self.ids@.len() as int)
        &&& self.sizes_ok()
    }

    fn new(count: usize) -> (r: Self) {
        let mut ids: Vec<usize> = Vec::new();
        let mut size: Vec<usize> = Vec::new();
        let mut i: usize = 0;
        while i < count
            invariant
                i <= count,
                ids@ == Seq::new(i as nat, |k: int| k as usize),
                size@ == Seq::new(i as nat, |k: int| 1usize),
            decreases count - i,
        {
            ids.push(i);
            size.push(1);
            i += 1;
            assert(ids@ =~= Seq::new(i as nat, |k: int| k as usize));
            assert(size@ =~= Seq::new(i as nat, |k: int| 1usize));
        }
        let r = WeightedQuickUnion {
            ids,
            size,
            count,
            compressed: true,
            rank: Ghost(Seq::new(count as nat, |k: int| 0nat)),
            top: Ghost(0),
        };
        proof {
            lemma_roots_upto_all(count, count as int);
            assert forall|x: usize| x < count implies #[trigger] members(r.ids@, r.rank@, r.top@, x) == set![x] by {
                assert(members(r.ids@, r.rank@, r.top@, x) =~= set![x]);
            }
        }
        r
    }

    fn union(&mut self, p: usize, q: usize) {
        let p_id = self.find(p);
        let q_id = self.find(q);
        if p_id != q_id {
            let ghost ids0 = self.ids@;
            let ghost rank0 = self.rank@;
            let ghost top0 = self.top@;
            let len = self.ids.len();
            let ghost n = ids0.len();
            proof {
                lemma_root_is_root(ids0, rank0, top0, p);
                lemma_root_is_root(ids0, rank0, top0, q);
            }
            let p_size = self.size[p_id];
            let q_size = self.size[q_id];
            let (a, b) = if p_size < q_size {
                (p_id, q_id)
            } else {
                (q_id, p_id)
            };
            proof {
                lemma_root_is_root(ids0, rank0, top0, p);
                lemma_root_is_root(ids0, rank0, top0, q);
                let bump = if rank0[b as int] > rank0[a as int] { rank0[b as int] } else { rank0[a as int] + 1 };
                let rank1 = rank0.update(b as int, bump);
                let top1 = if top0 >= bump { top0 } else { bump };
                self.rank = Ghost(rank1);
                self.top = Ghost(top1);
                assert(forest_ok(ids0, rank1, top1));
                lemma_sites(len);
                let ma = members(ids0, rank0, top0, a);
                let mb = members(ids0, rank0, top0, b);
                assert(ma.disjoint(mb));
                lemma_set_disjoint_lens(ma, mb);
                assert((ma + mb).subset_of(Set::new(|x: usize| x < len)));
                lemma_len_subset(ma + mb, Set::new(|x: usize| x < len));
            }
            self.ids.set(a, b);
            let new_size = self.size[b] + self.size[a];
            self.size.set(b, new_size);
            proof {
                let ids1 = self.ids@;
                assert(forest_ok(ids1, self.rank@, self.top@));
                assert forall|x: usize| x < n implies #[trigger] root_of(ids1, self.rank@, self.top@, x) == if root_of(ids0, rank0, top0, x) == a {
                    b
                } else {
                    root_of(ids0, rank0, top0, x)
                } by {
                    lemma_root_after_link(ids0, rank0, top0, self.rank@, self.top@, a, b, x);
                }
                lemma_roots_upto_update(ids0, a as int, b, n as int);
                assert(roots_upto(ids0, n as int) >= 1);
                assert forall|r: usize|
                    r < n && #[trigger] ids1[r as int] == r implies members(ids1, self.rank@, self.top@, r).finite()
                        && self.size@[r as int] == members(ids1, self.rank@, self.top@, r).len() by {
                    if r == b {
                        assert(members(ids1, self.rank@, self.top@, r) =~= members(ids0, rank0, top0, a) + members(ids0, rank0, top0, b));
                    } else {
                        assert(r != a);
                        assert(ids0[r as int] == r);
                        assert(members(ids1, self.rank@, self.top@, r) =~= members(ids0, rank0, top0, r));
                    }
                }
            }
            self.count = self.count - 1;
        }
    }

    fn find(&mut self, p: usize) -> (r: usize) {
        let ghost before = self.ids@;
        let r = find_root(&mut self.ids, p, self.compressed, self.rank, self.top);
        proof {
            assert forall|x: usize|
                x < self.ids@.len() && #[trigger] self.ids@[x as int] == x implies members(self.ids@, self.rank@, self.top@, x).finite()
                    && self.size@[x as int] == members(self.ids@, self.rank@, self.top@, x).len() by {
                assert(before[x as int] == x);
                assert(members(self.ids@, self.rank@, self.top@, x) =~= members(before, self.rank@, self.top@, x));
            }
        }
        r
    }

    fn count(&self) -> (r: usize) {
        self.count
    }
}

} // verus!
