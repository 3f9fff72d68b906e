//! Depth-first orders and topological sorting of digraphs.
use super::directed_graph::{Digraph, DirectedCycle};
use super::traversal::{dfs_visit, fin_closed, finish_inv, forest};
use super::{closed_except, has_arc, has_cycle, lists_view, reachable, well_formed};
use vstd::prelude::*;

verus! {

/// The vertices of a digraph in the order a depth-first search over all of them finishes them.
pub struct DepthFirstOrder {
    post: Vec<usize>,
    marked: Vec<bool>,
}

/// `order` lists each vertex `0..n` once.
pub open spec fn is_permutation(order: Seq<usize>, n: nat) -> bool {
    &&& order.len() == n
    &&& order.no_duplicates()
    &&& forall|i: int| 0 <= i < order.len() ==> #[trigger] order[i] < n
}

impl DepthFirstOrder {
    /// The finishing order.
    pub closed spec fn post(&self) -> Seq<usize> {
        self.post@
    }

    /// Runs a depth-first search from each vertex not yet reached, in increasing order.
    pub fn new(g: &Digraph) -> (r: Self)
        requires
            g.wf(),
        ensures
            is_permutation(r.post(), g@.len()),
            forall|i: int, j: int|
                #![trigger r.post()[i], r.post()[j]]
                0 <= i < j < r.post().len() && has_arc(g@, r.post()[i], r.post()[j]) ==> reachable(
                    g@,
                    r.post()[j],
                    r.post()[i],
                ),
            fin_closed(g@, r.post()),
    {
        let adj = g.lists();
        let n = adj.len();
        let ghost a = lists_view(adj@);
        let mut marked: Vec<bool> = Vec::new();
        let mut edge_to: Vec<Option<usize>> = Vec::new();
        let mut i: usize = 0;
        while i < n
            invariant
                i <= n,
                n == adj@.len(),
                marked@ == Seq::new(i as nat, |k: int| false),
                edge_to@ == Seq::new(i as nat, |k: int| None::<usize>),
            decreases n - i,
        {
            marked.push(false);
            edge_to.push(None);
            i += 1;
            assert(marked@ =~= Seq::new(i as nat, |k: int| false));
            assert(edge_to@ =~= Seq::new(i as nat, |k: int| None::<usize>));
        }
        let mut post: Vec<usize> = Vec::with_capacity(n);
        let ghost mut depth = Seq::new(n as nat, |k: int| 0nat);
        proof {
            reveal(forest);
            reveal(closed_except);
            reveal(finish_inv);
        }
        let mut v: usize = 0;
        while v < n
            invariant
                a == lists_view(adj@),
                a == g@,
                n == a.len(),
                well_formed(a),
                v <= n,
                marked@.len() == n,
                edge_to@.len() == n,
                depth.len() == n,
                forest(a, marked@, edge_to@, depth),
                closed_except(a, marked@, Seq::empty()),
                finish_inv(a, marked@, post@, Seq::empty()),
                forall|u: int| 0 <= u < v ==> marked@[u],
            decreases n - v,
        {
            if !marked[v] {
                let ghost before = marked@;
                proof {
                    reveal(forest);
                    depth = depth.update(v as int, 0);
                    assert(forest(a, marked@, edge_to@.update(v as int, None), depth));
                }
                edge_to.set(v, None);
                let Ghost(d) = dfs_visit(adj, &mut marked, &mut edge_to, &mut post, v, Ghost(Seq::empty()), Ghost(depth));
                proof {
                    depth = d;
                    reveal(forest);
                    assert forall|u: int| 0 <= u < v + 1 implies marked@[u] by {
                        if u < v {
                            assert(before[(u as usize) as int]);
                        }
                    }
                }
            }
            v += 1;
        }
        proof {
            reveal(finish_inv);
            let p = post@;
            assert forall|x: usize| x < n implies #[trigger] p.contains(x) by {
                assert(marked@[x as int]);
            }
            lemma_permutation_len(p, n as nat);
            assert forall|i: int, j: int|
                #![trigger p[i], p[j]]
                0 <= i < j < p.len() && has_arc(a, p[i], p[j]) implies reachable(a, p[j], p[i]) by {
                if !reachable(a, p[j], p[i]) {
                    let k = choose|k: int| 0 <= k < i && p[k] == p[j];
                }
            }
        }
        DepthFirstOrder { post, marked }
    }

    /// The finishing order reversed.
    pub fn reverse_post(&self) -> (r: Vec<usize>)
        ensures
            r@.len() == self.post().len(),
            forall|i: int| 0 <= i < r@.len() ==> #[trigger] r@[i] == self.post()[self.post().len() - 1 - i],
    {
        let len = self.post.len();
        let mut r: Vec<usize> = Vec::with_capacity(len);
        let mut k: usize = 0;
        while k < len
            invariant
                len == self.post@.len(),
                k <= len,
                r@.len() == k,
                forall|i: int| 0 <= i < k ==> #[trigger] r@[i] == self.post@[len - 1 - i],
            decreases len - k,
        {
            r.push(self.post[len - 1 - k]);
            k += 1;
        }
        r
    }
}

/// A sequence without repeats that holds every number below `n`, and nothing else, has
/// length `n`.
pub proof fn lemma_permutation_len(p: Seq<usize>, n: nat)
    requires
        n <= usize::MAX,
        p.no_duplicates(),
        forall|i: int| 0 <= i < p.len() ==> #[trigger] p[i] < n,
        forall|x: usize| x < n ==> #[trigger] p.contains(x),
    ensures
        p.len() == n,
{
    let s = p.to_set();
    p.unique_seq_to_set();
    let r = Set::new(|x: usize| x < n);
    assert(s =~= r);
    let ints = vstd::set_lib::set_int_range(0, n as int);
    vstd::set_lib::lemma_int_range(0, n as int);
    assert(r.len() == n) by {
        let f = |x: usize| x as int;
        assert(r.map(f) =~= ints) by {
            assert forall|i: int| ints.contains(i) implies r.map(f).contains(i) by {
                assert(r.contains(i as usize));
                assert(f(i as usize) == i);
            }
        }
        assert(r.finite()) by {
            assert(r =~= p.to_set());
        }
        vstd::set_lib::lemma_map_size(r, ints, f);
    }
}

/// A sequence without repeats of `n` numbers below `n` holds each of them.
pub proof fn lemma_permutation_covers(p: Seq<usize>, n: nat, x: usize)
    requires
        n <= usize::MAX,
        is_permutation(p, n),
        x < n,
    ensures
        p.contains(x),
{
    if !p.contains(x) {
        p.unique_seq_to_set();
        let r = Set::new(|y: usize| y < n && y != x);
        let f = |y: usize| y as int;
        let ints = vstd::set_lib::set_int_range(0, n as int);
        vstd::set_lib::lemma_int_range(0, n as int);
        let all = Set::new(|y: usize| y < n);
        assert(all.map(f) =~= ints) by {
            assert forall|i: int| ints.contains(i) implies all.map(f).contains(i) by {
                assert(all.contains(i as usize));
                assert(f(i as usize) == i);
            }
        }
        assert(all.finite()) by {
            assert(all.subset_of(Set::new(|y: usize| y < n)));
            let q = Seq::new(n, |i: int| i as usize);
            assert(all =~= q.to_set()) by {
                assert forall|y: usize| all.contains(y) implies q.to_set().contains(y) by {
                    assert(q[y as int] == y);
                }
            }
        }
        vstd::set_lib::lemma_map_size(all, ints, f);
        assert(r =~= all.remove(x));
        assert(p.to_set().subset_of(r));
        vstd::set_lib::lemma_len_subset(p.to_set(), r);
    }
}

/// A topological order of a digraph, when it has no cycle.
pub struct Topological {
    order: Option<Vec<usize>>,
}

impl Topological {
    /// The order found, if any.
    pub closed spec fn found(&self) -> Option<Vec<usize>> {
        self.order
    }

    /// Orders the vertices so that every arc goes forward, or finds that a cycle forbids it.
    pub fn new(g: &Digraph) -> (r: Self)
        requires
            g.wf(),
        ensures
            r.found() is Some <==> !has_cycle(g@),
            r.found() matches Some(o) ==> is_permutation(o@, g@.len()),
            r.found() matches Some(o) ==> forall|i: int, j: int|
                #![trigger o@[i], o@[j]]
                0 <= i < o@.len() && 0 <= j < o@.len() && has_arc(g@, o@[i], o@[j]) ==> i < j,
    {
        let dc = DirectedCycle::new(g);
        let order = if dc.cycle().is_none() {
            let dfo = DepthFirstOrder::new(g);
            let o = dfo.reverse_post();
            proof {
                let p = dfo.post();
                let n = p.len();
                assert forall|i: int| 0 <= i < o@.len() implies #[trigger] o@[i] < g@.len() by {
                    assert(o@[i] == p[n - 1 - i]);
                }
                assert(o@.no_duplicates()) by {
                    assert forall|i: int, j: int| 0 <= i < o@.len() && 0 <= j < o@.len() && i != j implies o@[i] != o@[j] by {
                        assert(o@[i] == p[n - 1 - i] && o@[j] == p[n - 1 - j]);
                    }
                }
                assert forall|i: int, j: int|
                    #![trigger o@[i], o@[j]]
                    0 <= i < o@.len() && 0 <= j < o@.len() && has_arc(g@, o@[i], o@[j]) implies i < j by {
                    let a = n - 1 - i;
                    let b = n - 1 - j;
                    assert(o@[i] == p[a] && o@[j] == p[b]);
                    if i >= j {
                        if a < b {
                            assert(reachable(g@, p[b], p[a]));
                        } else {
                            super::lemma_reachable_self(g@, p[a]);
                        }
                        assert(has_cycle(g@));
                    }
                }
            }
            Some(o)
        } else {
            None
        };
        Topological { order }
    }

    /// The order found, if any.
    pub fn order(&self) -> (r: &Option<Vec<usize>>)
        ensures
            *r == self.found(),
    {
        &self.order
    }
}

} // verus!
