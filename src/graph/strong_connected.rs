//! Strongly connected components of digraphs.
use super::directed_graph::{lemma_reversed_reachable, reverses, Digraph};
use super::topological::{is_permutation, lemma_permutation_covers, DepthFirstOrder};
use super::traversal::{dfs_visit, fin_closed, finish_inv, forest};
use super::{
    closed_except, lemma_closed_holds_reachable, lemma_reachable_self, lemma_reachable_trans, lists_view, reachable,
    well_formed,
};
use vstd::prelude::*;

verus! {

/// Component ids for the vertices of a digraph, found by Kosaraju's algorithm.
pub struct SCC {
    /// The number of components.
    pub count: usize,
    id: Vec<usize>,
    marked: Vec<bool>,
}

/// Some vertex has the id `c`.
pub open spec fn has_member(ids: Seq<usize>, c: int) -> bool {
    exists|v: int| 0 <= v < ids.len() && ids[v] == c
}

/// In a finishing order of a whole digraph that is `fin_closed`, whatever `post[i]` reaches
/// finished no later than some vertex that reaches `post[i]` and is reached from it.
proof fn lemma_reach_bounded(adj: Seq<Seq<usize>>, post: Seq<usize>, i: int, y: usize)
    requires
        well_formed(adj),
        adj.len() <= usize::MAX,
        fin_closed(adj, post),
        is_permutation(post, adj.len()),
        0 <= i < post.len(),
        reachable(adj, post[i], y),
    ensures
        exists|j: int|
            i <= j < post.len() && post.subrange(0, j + 1).contains(y) && reachable(adj, post[j], post[i]) && reachable(
                adj,
                post[i],
                post[j],
            ),
    decreases post.len() - i,
{
    lemma_reachable_self(adj, post[i]);
    if exists|j: int| 0 <= j <= i && post[j] == y {
        let j = choose|j: int| 0 <= j <= i && post[j] == y;
        assert(post.subrange(0, i + 1)[j] == y);
    } else {
        let c = choose|c: usize|
            reachable(adj, c, post[i]) && reachable(adj, post[i], c) && !post.subrange(0, i + 1).contains(c);
        let p = choose|p: Seq<usize>| #[trigger] super::is_walk(adj, p) && p[0] == c && p.last() == post[i];
        assert(c < adj.len());
        lemma_permutation_covers(post, adj.len(), c);
        let k = choose|k: int| 0 <= k < post.len() && post[k] == c;
        if k <= i {
            assert(post.subrange(0, i + 1)[k] == c);
        }
        lemma_reachable_trans(adj, c, post[i], y);
        lemma_reach_bounded(adj, post, k, y);
        let j = choose|j: int|
            k <= j < post.len() && post.subrange(0, j + 1).contains(y) && reachable(adj, post[j], post[k]) && reachable(
                adj,
                post[k],
                post[j],
            );
        lemma_reachable_trans(adj, post[j], c, post[i]);
        lemma_reachable_trans(adj, post[i], c, post[j]);
    }
}

/// The seed `v` of a round reaches back every vertex `x` the round takes: a vertex that finished
/// no earlier than `v` in the reversed digraph and shares a component with `x` would have been
/// taken in an earlier round, with `x`.
proof fn lemma_kosaraju_step(
    a: Seq<Seq<usize>>,
    rv: Seq<Seq<usize>>,
    pr: Seq<usize>,
    order: Seq<usize>,
    m0: Seq<bool>,
    k: int,
    v: usize,
    x: usize,
)
    requires
        well_formed(a),
        a.len() <= usize::MAX,
        reverses(a, rv),
        well_formed(rv),
        is_permutation(pr, a.len()),
        fin_closed(rv, pr),
        order.len() == a.len(),
        forall|t: int| 0 <= t < a.len() ==> #[trigger] order[t] == pr[a.len() - 1 - t],
        m0.len() == a.len(),
        forall|p: usize, q: usize| p < a.len() && q < a.len() && #[trigger] m0[p as int] && #[trigger] reachable(a, p, q) ==> m0[q as int],
        forall|j: int| 0 <= j < k ==> m0[#[trigger] order[j] as int],
        0 <= k < a.len(),
        order[k] == v,
        x < a.len(),
        !m0[x as int],
        reachable(a, v, x),
    ensures
        reachable(a, x, v),
{
    let n = a.len();
    lemma_reversed_reachable(a, rv, x, v);
    lemma_permutation_covers(pr, n, x);
    let ix = choose|i: int| 0 <= i < pr.len() && pr[i] == x;
    lemma_reach_bounded(rv, pr, ix, v);
    let j = choose|j: int|
        ix <= j < pr.len() && pr.subrange(0, j + 1).contains(v) && reachable(rv, pr[j], pr[ix]) && reachable(rv, pr[ix], pr[j]);
    let w = pr[j];
    lemma_reversed_reachable(a, rv, w, x);
    lemma_reversed_reachable(a, rv, x, w);
    if m0[w as int] {
        assert(m0[x as int]);
    }
    let t = n - 1 - j;
    assert(order[t] == w);
    if t < k {
        assert(m0[order[t] as int]);
    }
    let pre = pr.subrange(0, j + 1);
    let tv = choose|tv: int| 0 <= tv < pre.len() && pre[tv] == v;
    assert(pr[tv] == v);
    assert(order[k] == pr[n - 1 - k]);
    assert(tv == n - 1 - k);
}

impl View for SCC {
    /// The component id of each vertex.
    type V = Seq<usize>;

    closed spec fn view(&self) -> Seq<usize> {
        self.id@
    }
}

impl SCC {
    /// The number of components.
    pub closed spec fn components(&self) -> nat {
        self.count as nat
    }

    /// Visits from `v` the vertices not yet in a component, and puts them in component `count`.
    fn search(
        &mut self,
        adj: &Vec<Vec<usize>>,
        edge_to: &mut Vec<Option<usize>>,
        post: &mut Vec<usize>,
        v: usize,
        Ghost(depth): Ghost<Seq<nat>>,
    ) -> (depth_out: Ghost<Seq<nat>>)
        requires
            well_formed(lists_view(adj@)),
            old(self).marked@.len() == adj@.len(),
            old(self).id@.len() == adj@.len(),
            old(edge_to)@.len() == adj@.len(),
            depth.len() == adj@.len(),
            v < adj@.len(),
            !old(self).marked@[v as int],
            old(edge_to)@[v as int] is None,
            depth[v as int] == 0,
            forest(lists_view(adj@), old(self).marked@, old(edge_to)@, depth),
            closed_except(lists_view(adj@), old(self).marked@, Seq::empty()),
            finish_inv(lists_view(adj@), old(self).marked@, old(post)@, Seq::empty()),
        ensures
            final(self).marked@.len() == adj@.len(),
            final(self).id@.len() == adj@.len(),
            final(edge_to)@.len() == adj@.len(),
            depth_out@.len() == adj@.len(),
            final(self).count == old(self).count,
            forest(lists_view(adj@), final(self).marked@, final(edge_to)@, depth_out@),
            closed_except(lists_view(adj@), final(self).marked@, Seq::empty()),
            finish_inv(lists_view(adj@), final(self).marked@, final(post)@, Seq::empty()),
            final(self).marked@[v as int],
            forall|x: usize| x < adj@.len() && #[trigger] old(self).marked@[x as int] ==> final(self).marked@[x as int]
                && final(self).id@[x as int] == old(self).id@[x as int],
            forall|x: usize| x < adj@.len() && #[trigger] final(self).marked@[x as int] && !old(self).marked@[x as int]
                ==> final(self).id@[x as int] == old(self).count && reachable(lists_view(adj@), v, x),
    {
        let ghost a = lists_view(adj@);
        let ghost m0 = self.marked@;
        let ghost id0 = self.id@;
        let start = post.len();
        proof {
            reveal(forest);
        }
        let d = dfs_visit(adj, &mut self.marked, edge_to, post, v, Ghost(Seq::empty()), Ghost(depth));
        let mut k = start;
        let ghost p = post@;
        let ghost m1 = self.marked@;
        let ghost c0 = self.count;
        #[verifier::loop_isolation(false)]
        while k < post.len()
            invariant
                p == post@,
                self.marked@ == m1,
                self.count == c0,
                start <= k <= p.len(),
                self.id@.len() == a.len(),
                self.marked@.len() == a.len(),
                a == lists_view(adj@),
                finish_inv(a, self.marked@, p, Seq::empty()),
                forall|i: int| start <= i < p.len() ==> !m0[#[trigger] p[i] as int],
                forall|x: usize| x < a.len() && #[trigger] m0[x as int] ==> self.id@[x as int] == id0[x as int],
                forall|i: int| start <= i < k ==> self.id@[#[trigger] p[i] as int] == self.count,
            decreases p.len() - k,
        {
            proof {
                reveal(finish_inv);
            }
            let x = post[k];
            self.id.set(x, self.count);
            proof {
                assert forall|i: int| start <= i < k + 1 implies self.id@[#[trigger] p[i] as int] == self.count by {
                    if i < k && p[i] != x {
                    }
                }
            }
            k += 1;
        }
        proof {
            reveal(finish_inv);
            assert forall|x: usize| x < a.len() && #[trigger] self.marked@[x as int] && !m0[x as int] implies self.id@[x as int] == self.count && reachable(a, v, x) by {
                let i = choose|i: int| 0 <= i < p.len() && p[i] == x;
                if i < start {
                    assert(p[i] == p.subrange(0, start as int)[i]);
                }
            }
        }
        d
    }

    /// Computes the strongly connected components of `g`.
    pub fn new(g: &Digraph) -> (r: Self)
        requires
            g.wf(),
        ensures
            r@.len() == g@.len(),
            r.components() <= g@.len(),
            forall|v: int| 0 <= v < g@.len() ==> #[trigger] r@[v] < r.components(),
            forall|c: int| 0 <= c < r.components() ==> #[trigger] has_member(r@, c),
            forall|v: usize, w: usize|
                v < g@.len() && w < g@.len() && #[trigger] reachable(g@, v, w) && #[trigger] reachable(g@, w, v) ==> r@[v as int]
                    == r@[w as int],
            forall|v: usize, w: usize|
                v < g@.len() && w < g@.len() && #[trigger] r@[v as int] == #[trigger] r@[w as int] ==> reachable(g@, v, w)
                    && reachable(g@, w, v),
    {
        let adj = g.lists();
        let n = adj.len();
        let ghost a = lists_view(adj@);
        let mut marked: Vec<bool> = Vec::new();
        let mut id: Vec<usize> = Vec::new();
        let mut edge_to: Vec<Option<usize>> = Vec::new();
        let mut i: usize = 0;
        while i < n
            invariant
                i <= n,
                n == adj@.len(),
                marked@ == Seq::new(i as nat, |k: int| false),
                id@ == Seq::new(i as nat, |k: int| 0usize),
                edge_to@ == Seq::new(i as nat, |k: int| None::<usize>),
            decreases n - i,
        {
            marked.push(false);
            id.push(0);
            edge_to.push(None);
            i += 1;
            assert(marked@ =~= Seq::new(i as nat, |k: int| false));
            assert(id@ =~= Seq::new(i as nat, |k: int| 0usize));
            assert(edge_to@ =~= Seq::new(i as nat, |k: int| None::<usize>));
        }
        let mut scc = SCC { count: 0, id, marked };
        let reversed = g.reverse();
        let dfo = DepthFirstOrder::new(&reversed);
        let order = dfo.reverse_post();
        let ghost rv = reversed@;
        let ghost pr = dfo.post();
        let mut post: Vec<usize> = Vec::new();
        let ghost mut depth = Seq::new(n as nat, |k: int| 0nat);
        let ghost mut seeds: Seq<usize> = Seq::empty();
        proof {
            reveal(forest);
            reveal(closed_except);
            reveal(finish_inv);
        }
        let mut k: usize = 0;
        while k < order.len()
            invariant
                a == lists_view(adj@),
                a == g@,
                n == a.len(),
                well_formed(a),
                k <= order@.len(),
                order@.len() == n,
                forall|j: int| 0 <= j < order@.len() ==> #[trigger] order@[j] < n,
                scc.marked@.len() == n,
                scc.id@.len() == n,
                edge_to@.len() == n,
                depth.len() == n,
                forest(a, scc.marked@, edge_to@, depth),
                closed_except(a, scc.marked@, Seq::empty()),
                finish_inv(a, scc.marked@, post@, Seq::empty()),
                forall|j: int| 0 <= j < k ==> scc.marked@[#[trigger] order@[j] as int],
                scc.count <= k,
                seeds.len() == scc.count,
                forall|c: int| 0 <= c < scc.count ==> #[trigger] seeds[c] < n && scc.id@[seeds[c] as int] == c && scc.marked@[seeds[c] as int],
                forall|x: usize| x < n && #[trigger] scc.marked@[x as int] ==> scc.id@[x as int] < scc.count,
                forall|x: usize, y: usize|
                    x < n && y < n && #[trigger] scc.marked@[x as int] && #[trigger] reachable(a, x, y) ==> scc.marked@[y as int]
                        && scc.id@[y as int] <= scc.id@[x as int],
                reverses(a, rv),
                well_formed(rv),
                n <= usize::MAX,
                is_permutation(pr, n as nat),
                fin_closed(rv, pr),
                forall|t: int| 0 <= t < n ==> #[trigger] order@[t] == pr[n - 1 - t],
                forall|x: usize|
                    x < n && #[trigger] scc.marked@[x as int] ==> reachable(a, x, seeds[scc.id@[x as int] as int]) && reachable(
                        a,
                        seeds[scc.id@[x as int] as int],
                        x,
                    ),
            decreases order@.len() - k,
        {
            let v = order[k];
            if !scc.marked[v] {
                let ghost m0 = scc.marked@;
                let ghost id0 = scc.id@;
                let ghost seeds0 = seeds;
                proof {
                    assert(forall|x: usize, y: usize| x < n && y < n && #[trigger] m0[x as int] && #[trigger] reachable(a, x, y) ==> m0[y as int]);
                    assert(forall|j: int| 0 <= j < k ==> m0[#[trigger] order@[j] as int]);
                    reveal(forest);
                    depth = depth.update(v as int, 0);
                    assert(forest(a, scc.marked@, edge_to@.update(v as int, None), depth));
                }
                edge_to.set(v, None);
                let Ghost(d) = scc.search(adj, &mut edge_to, &mut post, v, Ghost(depth));
                proof {
                    depth = d;
                    seeds = seeds.push(v);
                    assert forall|c: int| 0 <= c < scc.count + 1 implies #[trigger] seeds[c] < n && scc.id@[seeds[c] as int] == c
                        && scc.marked@[seeds[c] as int] by {
                        if c < scc.count {
                            assert(m0[seeds[c] as int]);
                        }
                    }
                    assert forall|x: usize, y: usize|
                        x < n && y < n && #[trigger] scc.marked@[x as int] && #[trigger] reachable(a, x, y) implies scc.marked@[y as int]
                            && scc.id@[y as int] <= scc.id@[x as int] by {
                        lemma_closed_holds_reachable(a, scc.marked@, x, y);
                        if m0[x as int] {
                            assert(m0[y as int]);
                        }
                    }
                    assert forall|x: usize|
                        x < n && #[trigger] scc.marked@[x as int] implies reachable(a, x, seeds[scc.id@[x as int] as int]) && reachable(
                            a,
                            seeds[scc.id@[x as int] as int],
                            x,
                        ) by {
                        if m0[x as int] {
                            assert(seeds[id0[x as int] as int] == seeds0[id0[x as int] as int]);
                        } else {
                            assert(scc.id@[x as int] == scc.count);
                            assert(seeds[scc.count as int] == v);
                            lemma_kosaraju_step(a, rv, pr, order@, m0, k as int, v, x);
                        }
                    }
                }
                scc.count = scc.count + 1;
            }
            k += 1;
        }
        proof {
            assert(is_permutation(order@, n as nat)) by {
                let p = dfo.post();
                assert(order@.no_duplicates()) by {
                    assert forall|i: int, j: int| 0 <= i < order@.len() && 0 <= j < order@.len() && i != j implies order@[i] != order@[j] by {
                        assert(order@[i] == p[n - 1 - i] && order@[j] == p[n - 1 - j]);
                    }
                }
            }
            assert forall|v: int| 0 <= v < n implies #[trigger] scc.id@[v] < scc.count by {
                lemma_permutation_covers(order@, n as nat, v as usize);
                let j = choose|j: int| 0 <= j < order@.len() && order@[j] == v as usize;
                assert(scc.marked@[order@[j] as int]);
            }
            assert forall|c: int| 0 <= c < scc.count implies #[trigger] has_member(scc.id@, c) by {
                assert(scc.id@[seeds[c] as int] == c);
            }
            assert forall|v: usize, w: usize|
                v < n && w < n && #[trigger] scc.id@[v as int] == #[trigger] scc.id@[w as int] implies reachable(a, v, w) && reachable(a, w, v) by {
                lemma_permutation_covers(order@, n as nat, v);
                let j = choose|j: int| 0 <= j < order@.len() && order@[j] == v;
                assert(scc.marked@[order@[j] as int]);
                lemma_permutation_covers(order@, n as nat, w);
                let j2 = choose|j: int| 0 <= j < order@.len() && order@[j] == w;
                assert(scc.marked@[order@[j2] as int]);
                let s = seeds[scc.id@[v as int] as int];
                lemma_reachable_trans(a, v, s, w);
                lemma_reachable_trans(a, w, s, v);
            }
            assert forall|v: usize, w: usize|
                v < n && w < n && #[trigger] reachable(a, v, w) && #[trigger] reachable(a, w, v) implies scc.id@[v as int] == scc.id@[w as int] by {
                lemma_permutation_covers(order@, n as nat, v);
                let j = choose|j: int| 0 <= j < order@.len() && order@[j] == v;
                assert(scc.marked@[order@[j] as int]);
                lemma_permutation_covers(order@, n as nat, w);
                let j2 = choose|j: int| 0 <= j < order@.len() && order@[j] == w;
                assert(scc.marked@[order@[j2] as int]);
            }
        }
        scc
    }

    /// Are `v` and `w` in the same component?
    pub fn strongly_connected(&self, v: usize, w: usize) -> (r: bool)
        requires
            v < self@.len(),
            w < self@.len(),
        ensures
            r == (self@[v as int] == self@[w as int]),
    {
        self.id[v] == self.id[w]
    }

    /// The component id of `v`.
    pub fn id(&self, v: usize) -> (r: usize)
        requires
            v < self@.len(),
        ensures
            r == self@[v as int],
    {
        self.id[v]
    }
}

} // verus!
