//! Directed graphs and the searches over them.
use super::traversal::{bfs_from, rooted_tree, search_from, tree_path};
use super::{
    has_arc, has_cycle, is_cycle, is_shortest, is_walk, lemma_num_marked_bound, lemma_num_marked_mono,
    lemma_num_marked_set, lemma_walk_suffix, lists_view, num_marked, reachable, well_formed,
};
use vstd::multiset::Multiset;
use vstd::prelude::*;

verus! {

broadcast use vstd::seq_lib::group_to_multiset_ensures;

/// A directed graph as adjacency lists over the vertices `0..num_vertices`.
pub struct Digraph {
    adj_list: Vec<Vec<usize>>,
    num_edges: usize,
}

impl View for Digraph {
    /// For each vertex, its neighbours in the order `adj` gives them.
    type V = Seq<Seq<usize>>;

    closed spec fn view(&self) -> Seq<Seq<usize>> {
        lists_view(self.adj_list@)
    }
}

/// The multiset of a list with one more entry in front.
pub proof fn lemma_prepend_multiset(x: usize, s: Seq<usize>)
    ensures
        (seq![x] + s).to_multiset() =~= s.to_multiset().insert(x),
{
    vstd::seq_lib::lemma_multiset_commutative(seq![x], s);
    assert(Seq::<usize>::empty().push(x) =~= seq![x]);
    assert(Seq::<usize>::empty().to_multiset() =~= Multiset::empty());
}

/// `r` has each arc of `g` turned around, as often as `g` has it.
pub open spec fn reverses(g: Seq<Seq<usize>>, r: Seq<Seq<usize>>) -> bool {
    &&& r.len() == g.len()
    &&& forall|v: int, w: usize|
        0 <= v < r.len() ==> #[trigger] r[v].to_multiset().count(w) == if w < g.len() {
            g[w as int].to_multiset().count(v as usize)
        } else {
            0
        }
}

/// Turning every arc around twice gives back, for each vertex, the same multiset of
/// neighbours.
pub proof fn lemma_reverse_twice(g: Seq<Seq<usize>>, r: Seq<Seq<usize>>, rr: Seq<Seq<usize>>)
    requires
        well_formed(g),
        g.len() <= usize::MAX,
        reverses(g, r),
        reverses(r, rr),
    ensures
        rr.len() == g.len(),
        forall|v: int| 0 <= v < g.len() ==> #[trigger] rr[v].to_multiset() == g[v].to_multiset(),
{
    assert forall|v: int| 0 <= v < g.len() implies #[trigger] rr[v].to_multiset() == g[v].to_multiset() by {
        assert forall|w: usize| rr[v].to_multiset().count(w) == g[v].to_multiset().count(w) by {
            if w < g.len() {
                assert(r[w as int].to_multiset().count(v as usize) == g[v].to_multiset().count(w));
            } else {
                if g[v].to_multiset().count(w) > 0 {
                    assert(g[v].contains(w));
                    let j = choose|j: int| 0 <= j < g[v].len() && g[v][j] == w;
                    assert(g[v][j] < g.len());
                }
            }
        }
        assert(rr[v].to_multiset() =~= g[v].to_multiset());
    }
}

/// An arc of the reversed digraph is an arc of the digraph turned around.
pub proof fn lemma_reversed_arc(g: Seq<Seq<usize>>, r: Seq<Seq<usize>>, u: usize, w: usize)
    requires
        well_formed(g),
        reverses(g, r),
        u < g.len(),
        w < g.len(),
    ensures
        has_arc(r, u, w) <==> has_arc(g, w, u),
{
    assert(r[u as int].to_multiset().count(w) == g[w as int].to_multiset().count(u));
    assert(r[u as int].contains(w) <==> r[u as int].to_multiset().count(w) > 0);
    assert(g[w as int].contains(u) <==> g[w as int].to_multiset().count(u) > 0);
}

/// A walk of the digraph read backwards is a walk of the reversed digraph.
pub proof fn lemma_reversed_walk(g: Seq<Seq<usize>>, r: Seq<Seq<usize>>, p: Seq<usize>)
    requires
        well_formed(g),
        reverses(g, r),
        is_walk(g, p),
    ensures
        is_walk(r, p.reverse()),
{
    let q = p.reverse();
    assert forall|i: int| 0 <= i < q.len() implies #[trigger] q[i] < r.len() by {
        assert(q[i] == p[p.len() - 1 - i]);
    }
    assert forall|i: int| #![trigger q[i]] 0 <= i < q.len() - 1 implies has_arc(r, q[i], q[i + 1]) by {
        let a = p.len() - 2 - i;
        assert(q[i] == p[a + 1] && q[i + 1] == p[a]);
        assert(has_arc(g, p[a], p[a + 1]));
        lemma_reversed_arc(g, r, p[a + 1], p[a]);
    }
}

/// What reaches what in the reversed digraph is what is reached from what in the digraph.
pub proof fn lemma_reversed_reachable(g: Seq<Seq<usize>>, r: Seq<Seq<usize>>, u: usize, w: usize)
    requires
        well_formed(g),
        g.len() <= usize::MAX,
        reverses(g, r),
    ensures
        reachable(r, u, w) <==> reachable(g, w, u),
{
    if reachable(g, w, u) {
        let p = choose|p: Seq<usize>| is_walk(g, p) && p[0] == w && p.last() == u;
        lemma_reversed_walk(g, r, p);
        assert(p.reverse()[0] == u);
        assert(p.reverse().last() == w);
    }
    if reachable(r, u, w) {
        let p = choose|p: Seq<usize>| is_walk(r, p) && p[0] == u && p.last() == w;
        lemma_reverse_reverses(g, r);
        lemma_reversed_walk(r, g, p);
        assert(p.reverse()[0] == w);
        assert(p.reverse().last() == u);
    }
}

/// Turning arcs around is symmetric.
pub proof fn lemma_reverse_reverses(g: Seq<Seq<usize>>, r: Seq<Seq<usize>>)
    requires
        well_formed(g),
        g.len() <= usize::MAX,
        reverses(g, r),
    ensures
        well_formed(r),
        reverses(r, g),
{
    assert forall|v: int, j: int| 0 <= v < r.len() && 0 <= j < r[v].len() implies #[trigger] r[v][j] < r.len() by {
        let x = r[v][j];
        assert(r[v].contains(x));
        assert(r[v].to_multiset().count(x) > 0);
    }
    assert forall|v: int, w: usize| 0 <= v < g.len() implies #[trigger] g[v].to_multiset().count(w) == if w < r.len() {
        r[w as int].to_multiset().count(v as usize)
    } else {
        0
    } by {
        if w < r.len() {
            assert((v as usize) as int == v);
            assert(r[w as int].to_multiset().count(v as usize) == g[v].to_multiset().count(w));
        } else if g[v].to_multiset().count(w) > 0 {
            assert(g[v].contains(w));
            let j = choose|j: int| 0 <= j < g[v].len() && g[v][j] == w;
            assert(g[v][j] < g.len());
        }
    }
}

/// A listed cycle has two vertices or more, or is a single vertex with an arc to itself.
pub proof fn lemma_cycle_shape(adj: Seq<Seq<usize>>, c: Seq<usize>)
    requires
        is_cycle(adj, c),
    ensures
        c.len() >= 2 || has_arc(adj, c[0], c[0]),
{
}

/// The adjacency lists after adding `edges` in order to `num_vertices` empty lists.
pub open spec fn with_arcs(num_vertices: nat, edges: Seq<(usize, usize)>) -> Seq<Seq<usize>>
    decreases edges.len(),
{
    if edges.len() == 0 {
        Seq::new(num_vertices, |i: int| Seq::<usize>::empty())
    } else {
        let g = with_arcs(num_vertices, edges.drop_last());
        let (v, w) = edges.last();
        g.update(v as int, seq![w] + g[v as int])
    }
}

impl Digraph {
    /// Number of arcs added so far.
    pub closed spec fn edge_count(&self) -> nat {
        self.num_edges as nat
    }

    /// Every neighbour is a vertex.
    pub open spec fn wf(&self) -> bool {
        well_formed(self@)
    }

    pub(crate) fn lists(&self) -> (r: &Vec<Vec<usize>>)
        ensures
            lists_view(r@) == self@,
    {
        &self.adj_list
    }

    /// The vertices `0..num_vertices`, in order.
    pub fn vertices(&self) -> (r: Vec<usize>)
        ensures
            r@ == Seq::new(self@.len(), |i: int| i as usize),
    {
        let n = self.num_vertices();
        let mut r: Vec<usize> = Vec::new();
        let mut v: usize = 0;
        while v < n
            invariant
                v <= n,
                n == self@.len(),
                r@ == Seq::new(v as nat, |i: int| i as usize),
            decreases n - v,
        {
            r.push(v);
            v += 1;
        }
        r
    }

    /// A digraph with `num_vertices` vertices and no arcs.
    pub fn new(num_vertices: usize) -> (g: Self)
        ensures
            g@ == Seq::new(num_vertices as nat, |i: int| Seq::<usize>::empty()),
            g.wf(),
            g.edge_count() == 0,
    {
        let mut adj_list: Vec<Vec<usize>> = Vec::new();
        let mut v: usize = 0;
        while v < num_vertices
            invariant
                v <= num_vertices,
                adj_list@.len() == v,
                forall|i: int| 0 <= i < v ==> (#[trigger] adj_list@[i])@ == Seq::<usize>::empty(),
            decreases num_vertices - v,
        {
            let empty: Vec<usize> = Vec::new();
            adj_list.push(empty);
            v += 1;
        }
        assert(lists_view(adj_list@) =~= Seq::new(num_vertices as nat, |i: int| Seq::<usize>::empty()));
        Digraph { adj_list, num_edges: 0 }
    }

    /// The digraph on `num_vertices` vertices with the arcs `edges`, added in order.
    pub fn from_edges(num_vertices: usize, edges: &Vec<(usize, usize)>) -> (g: Self)
        requires
            forall|i: int| 0 <= i < edges@.len() ==> #[trigger] edges@[i].0 < num_vertices && edges@[i].1 < num_vertices,
        ensures
            g.wf(),
            g@ == with_arcs(num_vertices as nat, edges@),
            g.edge_count() == edges@.len(),
    {
        let mut g = Digraph::new(num_vertices);
        let mut i: usize = 0;
        while i < edges.len()
            invariant
                i <= edges@.len(),
                forall|k: int| 0 <= k < edges@.len() ==> #[trigger] edges@[k].0 < num_vertices && edges@[k].1 < num_vertices,
                g.wf(),
                g@.len() == num_vertices,
                g@ == with_arcs(num_vertices as nat, edges@.subrange(0, i as int)),
                g.edge_count() == i,
            decreases edges@.len() - i,
        {
            let (v, w) = edges[i];
            proof {
                assert(edges@.subrange(0, i + 1).drop_last() =~= edges@.subrange(0, i as int));
                assert(edges@.subrange(0, i + 1).last() == edges@[i as int]);
            }
            g.add_edge(v, w);
            i += 1;
        }
        assert(edges@.subrange(0, i as int) =~= edges@);
        g
    }

    pub fn num_vertices(&self) -> (r: usize)
        ensures
            r == self@.len(),
    {
        self.adj_list.len()
    }

    pub fn num_edges(&self) -> (r: usize)
        ensures
            r == self.edge_count(),
    {
        self.num_edges
    }

    /// Puts `w` in front of the neighbours of `v`, leaving the arc count alone.
    fn push_arc(&mut self, v: usize, w: usize)
        requires
            v < old(self)@.len(),
            w < old(self)@.len(),
        ensures
            final(self)@ == old(self)@.update(v as int, seq![w] + old(self)@[v as int]),
            final(self).edge_count() == old(self).edge_count(),
            old(self).wf() ==> final(self).wf(),
    {
        let ghost old_list = self.adj_list@[v as int]@;
        self.adj_list[v].insert(0, w);
        assert(self.adj_list@[v as int]@ =~= seq![w] + old_list);
        assert(self@ =~= old(self)@.update(v as int, seq![w] + old(self)@[v as int]));
        assert forall|x: int, j: int|
            old(self).wf() && 0 <= x < self@.len() && 0 <= j < self@[x].len() implies #[trigger] self@[x][j]
            < self@.len() by {
            if x == v && j > 0 {
                assert(self@[x][j] == old(self)@[x][j - 1]);
            }
        }
    }

    /// Adds the arc `v -> w`; `w` comes first in `adj(v)` from now on.
    pub fn add_edge(&mut self, v: usize, w: usize)
        requires
            v < old(self)@.len(),
            w < old(self)@.len(),
            old(self).edge_count() < usize::MAX,
        ensures
            final(self)@ == old(self)@.update(v as int, seq![w] + old(self)@[v as int]),
            final(self).edge_count() == old(self).edge_count() + 1,
            old(self).wf() ==> final(self).wf(),
            forall|z: int, u: usize|
                0 <= z < final(self)@.len() ==> (#[trigger] final(self)@[z].contains(u) <==> (old(self)@[z].contains(u) || (z
                    == v && u == w))),
    {
        self.push_arc(v, w);
        proof {
            let a = old(self)@;
            assert forall|z: int, u: usize| 0 <= z < self@.len() implies (#[trigger] self@[z].contains(u) <==> (a[z].contains(u)
                || (z == v && u == w))) by {
                if z == v {
                    if self@[z].contains(u) {
                        let k = choose|k: int| 0 <= k < self@[z].len() && self@[z][k] == u;
                        if k > 0 {
                            assert(a[z][k - 1] == u);
                        }
                    }
                    if a[z].contains(u) {
                        let k = choose|k: int| 0 <= k < a[z].len() && a[z][k] == u;
                        assert(self@[z][k + 1] == u);
                    }
                    assert(self@[z][0] == w);
                }
            }
        }
        self.num_edges = self.num_edges + 1;
    }

    /// The neighbours of `v`, latest arc first.
    pub fn adj(&self, v: usize) -> (r: Vec<usize>)
        requires
            v < self@.len(),
        ensures
            r@ == self@[v as int],
    {
        let list = &self.adj_list[v];
        let mut r: Vec<usize> = Vec::new();
        let mut j: usize = 0;
        while j < list.len()
            invariant
                j <= list@.len(),
                list@ == self@[v as int],
                r@ == list@.subrange(0, j as int),
            decreases list@.len() - j,
        {
            r.push(list[j]);
            j += 1;
            assert(r@ =~= list@.subrange(0, j as int));
        }
        assert(r@ =~= list@);
        r
    }

    /// The digraph with every arc turned around.
    pub fn reverse(&self) -> (r: Digraph)
        requires
            self.wf(),
        ensures
            r.wf(),
            r@.len() == self@.len(),
            r.edge_count() == self.edge_count(),
            reverses(self@, r@),
    {
        let n = self.num_vertices();
        let mut r = Digraph::new(n);
        let mut v: usize = 0;
        while v < n
            invariant
                v <= n,
                n == self@.len(),
                r@.len() == n,
                r.wf(),
                self.wf(),
                forall|x: int, y: usize|
                    0 <= x < n ==> #[trigger] r@[x].to_multiset().count(y) == if y < v {
                        self@[y as int].to_multiset().count(x as usize)
                    } else {
                        0
                    },
            decreases n - v,
        {
            let list = &self.adj_list[v];
            let mut j: usize = 0;
            while j < list.len()
                invariant
                    v < n,
                    n == self@.len(),
                    j <= list@.len(),
                    list@ == self@[v as int],
                    r@.len() == n,
                    r.wf(),
                    self.wf(),
                    forall|x: int, y: usize|
                        0 <= x < n ==> #[trigger] r@[x].to_multiset().count(y) == if y < v {
                            self@[y as int].to_multiset().count(x as usize)
                        } else if y == v {
                            list@.subrange(0, j as int).to_multiset().count(x as usize)
                        } else {
                            0
                        },
                decreases list@.len() - j,
            {
                let w = list[j];
                assert(self@[v as int][j as int] < n);
                let ghost before = r@;
                r.push_arc(w, v);
                proof {
                    lemma_prepend_multiset(v, before[w as int]);
                    assert(list@.subrange(0, j + 1) =~= list@.subrange(0, j as int).push(w));
                }
                j += 1;
            }
            assert(list@.subrange(0, j as int) =~= list@);
            v += 1;
        }
        r.num_edges = self.num_edges;
        r
    }
}

/// The vertices reachable from a source vertex, found by depth-first search.
pub struct DirectedDFS {
    marked: Vec<bool>,
}

impl View for DirectedDFS {
    /// For each vertex, whether it is reachable from the source.
    type V = Seq<bool>;

    closed spec fn view(&self) -> Seq<bool> {
        self.marked@
    }
}

impl DirectedDFS {
    /// Finds the vertices reachable from `s`.
    pub fn new(g: &Digraph, s: usize) -> (r: Self)
        requires
            g.wf(),
            s < g@.len(),
        ensures
            r@.len() == g@.len(),
            forall|v: usize| v < g@.len() ==> (#[trigger] r@[v as int] <==> reachable(g@, s, v)),
    {
        let (marked, _edge_to, _depth) = search_from(g.lists(), s);
        DirectedDFS { marked }
    }

    /// Is `v` reachable from the source?
    pub fn marked(&self, v: usize) -> (r: bool)
        requires
            v < self@.len(),
        ensures
            r == self@[v as int],
    {
        self.marked[v]
    }
}

/// Paths from a source vertex along a depth-first search tree.
pub struct DirectedDFP {
    marked: Vec<bool>,
    edge_to: Vec<Option<usize>>,
    s: usize,
    graph: Ghost<Seq<Seq<usize>>>,
    depth: Ghost<Seq<nat>>,
}

impl DirectedDFP {
    pub closed spec fn graph(&self) -> Seq<Seq<usize>> {
        self.graph@
    }

    pub closed spec fn source(&self) -> usize {
        self.s
    }

    /// The search tree reaches exactly the vertices reachable from the source.
    pub closed spec fn wf(&self) -> bool {
        &&& well_formed(self.graph@)
        &&& rooted_tree(self.graph@, self.marked@, self.edge_to@, self.depth@, self.s)
        &&& forall|v: usize| v < self.graph@.len() ==> (#[trigger] self.marked@[v as int] <==> reachable(self.graph@, self.s, v))
    }

    /// Searches `g` from `s`.
    pub fn new(g: &Digraph, s: usize) -> (r: Self)
        requires
            g.wf(),
            s < g@.len(),
        ensures
            r.wf(),
            r.graph() == g@,
            r.source() == s,
    {
        let (marked, edge_to, depth) = search_from(g.lists(), s);
        DirectedDFP { marked, edge_to, s, graph: Ghost(g@), depth }
    }

    /// A path from the source to `v`, or `None` when `v` is not reachable from it.
    pub fn path_to(&self, v: usize) -> (r: Option<Vec<usize>>)
        requires
            self.wf(),
            v < self.graph().len(),
        ensures
            r is None <==> !reachable(self.graph(), self.source(), v),
            r matches Some(p) ==> is_walk(self.graph(), p@) && p@[0] == self.source() && p@.last() == v
                && p@.len() <= self.graph().len(),
    {
        if !self.marked[v] {
            return None;
        }
        Some(tree_path(&self.edge_to, v, self.graph, Ghost(self.marked@), self.depth, Ghost(self.s)))
    }
}

/// Shortest paths from a source vertex along a breadth-first search tree.
pub struct DirectedBFP {
    marked: Vec<bool>,
    edge_to: Vec<Option<usize>>,
    s: usize,
    graph: Ghost<Seq<Seq<usize>>>,
    depth: Ghost<Seq<nat>>,
}

impl DirectedBFP {
    pub closed spec fn graph(&self) -> Seq<Seq<usize>> {
        self.graph@
    }

    pub closed spec fn source(&self) -> usize {
        self.s
    }

    /// The search tree reaches exactly the vertices reachable from the source, each at its
    /// distance from the source.
    pub closed spec fn wf(&self) -> bool {
        &&& well_formed(self.graph@)
        &&& rooted_tree(self.graph@, self.marked@, self.edge_to@, self.depth@, self.s)
        &&& forall|v: usize| v < self.graph@.len() ==> (#[trigger] self.marked@[v as int] <==> reachable(self.graph@, self.s, v))
        &&& forall|v: usize, p: Seq<usize>|
            v < self.graph@.len() && #[trigger] self.marked@[v as int] && is_walk(self.graph@, p) && p[0] == self.s
                && #[trigger] p.last() == v ==> self.depth@[v as int] + 1 <= p.len()
    }

    /// Searches `g` from `s`.
    pub fn new(g: &Digraph, s: usize) -> (r: Self)
        requires
            g.wf(),
            s < g@.len(),
        ensures
            r.wf(),
            r.graph() == g@,
            r.source() == s,
    {
        let (marked, edge_to, depth) = bfs_from(g.lists(), s);
        DirectedBFP { marked, edge_to, s, graph: Ghost(g@), depth }
    }

    /// A path with the fewest arcs from the source to `v`, or `None` when `v` is not
    /// reachable from it.
    pub fn path_to(&self, v: usize) -> (r: Option<Vec<usize>>)
        requires
            self.wf(),
            v < self.graph().len(),
        ensures
            r is None <==> !reachable(self.graph(), self.source(), v),
            r matches Some(p) ==> is_walk(self.graph(), p@) && p@[0] == self.source() && p@.last() == v
                && p@.len() <= self.graph().len(),
            r matches Some(p) ==> is_shortest(self.graph(), self.source(), v, p@),
    {
        if !self.marked[v] {
            return None;
        }
        Some(tree_path(&self.edge_to, v, self.graph, Ghost(self.marked@), self.depth, Ghost(self.s)))
    }
}

/// Each arc out of a finished vertex leads to a vertex that finished earlier.
pub open spec fn strictly_post_ordered(adj: Seq<Seq<usize>>, fin: Seq<usize>) -> bool {
    forall|i: int, w: usize|
        0 <= i < fin.len() && #[trigger] has_arc(adj, fin[i], w) ==> exists|j: int| 0 <= j < i && fin[j] == w
}

/// A finishing order in which every arc goes back to an earlier vertex, over all the
/// vertices, leaves no room for a cycle.
pub proof fn lemma_strict_order_acyclic(adj: Seq<Seq<usize>>, fin: Seq<usize>)
    requires
        fin.no_duplicates(),
        strictly_post_ordered(adj, fin),
        forall|x: usize| x < adj.len() ==> #[trigger] fin.contains(x),
    ensures
        !has_cycle(adj),
{
    if has_cycle(adj) {
        let (v, w) = choose|v: usize, w: usize| #[trigger] has_arc(adj, v, w) && reachable(adj, w, v);
        let p = choose|p: Seq<usize>| is_walk(adj, p) && p[0] == w && p.last() == v;
        assert(fin.contains(w));
        let iw = choose|i: int| 0 <= i < fin.len() && fin[i] == w;
        lemma_rank_along_walk(adj, fin, p, iw, p.len() - 1);
        let iv = choose|i: int| 0 <= i <= iw && fin[i] == v;
        let j = choose|j: int| 0 <= j < iv && fin[j] == w;
        assert(fin[j] == fin[iw]);
    }
}

proof fn lemma_rank_along_walk(adj: Seq<Seq<usize>>, fin: Seq<usize>, p: Seq<usize>, i0: int, k: int)
    requires
        fin.no_duplicates(),
        strictly_post_ordered(adj, fin),
        forall|x: usize| x < adj.len() ==> #[trigger] fin.contains(x),
        is_walk(adj, p),
        0 <= i0 < fin.len(),
        fin[i0] == p[0],
        0 <= k < p.len(),
    ensures
        exists|i: int| 0 <= i <= i0 && fin[i] == p[k],
    decreases k,
{
    if k > 0 {
        lemma_rank_along_walk(adj, fin, p, i0, k - 1);
        let i = choose|i: int| 0 <= i <= i0 && fin[i] == p[k - 1];
        assert(has_arc(adj, fin[i], p[k]));
        let j = choose|j: int| 0 <= j < i && fin[j] == p[k];
    }
}

/// A listed cycle is a cycle.
pub proof fn lemma_cycle_witness(adj: Seq<Seq<usize>>, c: Seq<usize>)
    requires
        is_cycle(adj, c),
    ensures
        has_cycle(adj),
{
    lemma_walk_suffix(adj, c, 0);
    assert(has_arc(adj, c.last(), c[0]));
}

/// The active path: a walk without repeats, marked, flagged on the stack, each vertex the
/// search-tree child of the one before.
pub open spec fn active_chain(
    adj: Seq<Seq<usize>>,
    marked: Seq<bool>,
    edge_to: Seq<Option<usize>>,
    on_stack: Seq<bool>,
    stk: Seq<usize>,
) -> bool {
    &&& stk.no_duplicates()
    &&& forall|i: int| 0 <= i < stk.len() ==> #[trigger] stk[i] < adj.len() && marked[stk[i] as int]
    &&& forall|x: usize| x < adj.len() ==> (#[trigger] on_stack[x as int] <==> stk.contains(x))
    &&& forall|k: int| 1 <= k < stk.len() ==> edge_to[#[trigger] stk[k] as int] == Some(stk[k - 1])
    &&& stk.len() == 0 || is_walk(adj, stk)
}

/// The finished vertices, each once, apart from the active ones, together with them are the
/// marked ones.
#[verifier::opaque]
pub open spec fn finished(adj: Seq<Seq<usize>>, marked: Seq<bool>, fin: Seq<usize>, stk: Seq<usize>) -> bool {
    &&& fin.no_duplicates()
    &&& forall|i: int| 0 <= i < fin.len() ==> #[trigger] fin[i] < adj.len()
    &&& forall|x: usize|
        x < adj.len() ==> (#[trigger] marked[x as int] <==> (fin.contains(x) || stk.contains(x)))
    &&& forall|x: usize| #[trigger] fin.contains(x) ==> !stk.contains(x)
    &&& strictly_post_ordered(adj, fin)
}

/// Finds a directed cycle, if the digraph has one.
pub struct DirectedCycle {
    marked: Vec<bool>,
    edge_to: Vec<Option<usize>>,
    on_stack: Vec<bool>,
    /// The cycle found, its vertices in arc order: each has an arc to the next and the last
    /// to the first.
    pub cycle: Option<Vec<usize>>,
}

impl DirectedCycle {
    /// The cycle found, if any.
    pub closed spec fn found(&self) -> Option<Vec<usize>> {
        self.cycle
    }

    /// The cycle found, if any.
    pub fn cycle(&self) -> (r: &Option<Vec<usize>>)
        ensures
            *r == self.found(),
    {
        &self.cycle
    }

    /// The cycle closed by the arc `v -> w`, where `w` is on the active path that ends in `v`.
    fn trace_cycle(&self, v: usize, w: usize, Ghost(adj): Ghost<Seq<Seq<usize>>>, Ghost(stk): Ghost<Seq<usize>>) -> (c: Vec<usize>)
        requires
            self.edge_to@.len() == adj.len(),
            active_chain(adj, self.marked@, self.edge_to@, self.on_stack@, stk),
            stk.len() > 0,
            stk.last() == v,
            stk.contains(w),
            has_arc(adj, v, w),
        ensures
            is_cycle(adj, c@),
    {
        let ghost len = stk.len();
        let ghost j = choose|j: int| 0 <= j < stk.len() && stk[j] == w;
        let mut back: Vec<usize> = Vec::new();
        let mut x = v;
        let ghost mut k: int = len - 1;
        while x != w
            invariant
                active_chain(adj, self.marked@, self.edge_to@, self.on_stack@, stk),
                self.edge_to@.len() == adj.len(),
                len == stk.len(),
                0 <= j <= k < len,
                stk[j] == w,
                x == stk[k],
                back@.len() == len - 1 - k,
                forall|i: int| 0 <= i < back@.len() ==> #[trigger] back@[i] == stk[len - 1 - i],
            decreases k,
        {
            assert(k != j);
            assert(self.edge_to@[stk[k] as int] == Some(stk[k - 1]));
            back.push(x);
            x = self.edge_to[x].unwrap();
            proof {
                k = k - 1;
            }
        }
        assert(k == j) by {
            if k != j {
                assert(stk[k] == stk[j]);
            }
        }
        back.push(w);
        let n = back.len();
        let mut c: Vec<usize> = Vec::new();
        let mut i: usize = 0;
        while i < n
            invariant
                n == back@.len(),
                n == len - j,
                i <= n,
                c@.len() == i,
                forall|t: int| 0 <= t < n ==> #[trigger] back@[t] == stk[len - 1 - t],
                forall|t: int| 0 <= t < i ==> #[trigger] c@[t] == stk[j + t],
            decreases n - i,
        {
            c.push(back[n - 1 - i]);
            i += 1;
        }
        assert forall|t: int| #![trigger c@[t]] 0 <= t < c@.len() - 1 implies has_arc(adj, c@[t], c@[t + 1]) by {
            assert(c@[t] == stk[j + t] && c@[t + 1] == stk[j + t + 1]);
        }
        assert forall|t: int| 0 <= t < c@.len() implies #[trigger] c@[t] < adj.len() by {
            assert(c@[t] == stk[j + t]);
        }
        assert(c@[0] == w);
        assert(c@.last() == v);
        c
    }

    fn search(&mut self, adj: &Vec<Vec<usize>>, v: usize, Ghost(stk): Ghost<Seq<usize>>, Ghost(fin): Ghost<Seq<usize>>) -> (fin_out: Ghost<Seq<usize>>)
        requires
            well_formed(lists_view(adj@)),
            old(self).marked@.len() == adj@.len(),
            old(self).edge_to@.len() == adj@.len(),
            old(self).on_stack@.len() == adj@.len(),
            v < adj@.len(),
            !old(self).marked@[v as int],
            old(self).cycle is None,
            active_chain(lists_view(adj@), old(self).marked@, old(self).edge_to@, old(self).on_stack@, stk),
            stk.len() == 0 || (has_arc(lists_view(adj@), stk.last(), v) && old(self).edge_to@[v as int] == Some(stk.last())),
            finished(lists_view(adj@), old(self).marked@, fin, stk),
        ensures
            final(self).marked@.len() == adj@.len(),
            final(self).edge_to@.len() == adj@.len(),
            final(self).on_stack@ == old(self).on_stack@,
            forall|x: usize| x < adj@.len() && #[trigger] old(self).marked@[x as int] ==> final(self).marked@[x as int]
                && final(self).edge_to@[x as int] == old(self).edge_to@[x as int],
            final(self).marked@[v as int],
            num_marked(final(self).marked@) > num_marked(old(self).marked@),
            final(self).cycle matches Some(c) ==> is_cycle(lists_view(adj@), c@),
            final(self).cycle is None ==> finished(lists_view(adj@), final(self).marked@, fin_out@, stk),
        decreases old(self).marked@.len() - num_marked(old(self).marked@),
    {
        let num_vertices = adj.len();
        let ghost a = lists_view(adj@);
        let ghost n = a.len();
        let ghost marked0 = self.marked@;
        let ghost edge0 = self.edge_to@;
        let ghost stack0 = self.on_stack@;
        let ghost stk2 = stk.push(v);
        proof {
            lemma_num_marked_bound(marked0);
            lemma_num_marked_set(marked0, v as int);
            lemma_num_marked_bound(marked0.update(v as int, true));
        }
        self.marked.set(v, true);
        self.on_stack.set(v, true);
        proof {
            reveal(finished);
            assert forall|x: usize| #[trigger] stk2.contains(x) <==> (stk.contains(x) || x == v) by {
                if stk.contains(x) {
                    let k = choose|k: int| 0 <= k < stk.len() && stk[k] == x;
                    assert(stk2[k] == x);
                }
                if stk2.contains(x) && x != v {
                    let k = choose|k: int| 0 <= k < stk2.len() && stk2[k] == x;
                    assert(stk[k] == x);
                }
                if x == v {
                    assert(stk2[stk2.len() - 1] == x);
                }
            }
            assert(!stk.contains(v)) by {
                if stk.contains(v) {
                    let k = choose|k: int| 0 <= k < stk.len() && stk[k] == v;
                }
            }
            assert(stk2.no_duplicates()) by {
                assert forall|p: int, q: int| 0 <= p < stk2.len() && 0 <= q < stk2.len() && p != q implies stk2[p] != stk2[q] by {
                    if p < stk.len() && q < stk.len() {
                        assert(stk2[p] == stk[p] && stk2[q] == stk[q]);
                    } else if p < stk.len() {
                        assert(stk2[p] == stk[p]);
                    } else if q < stk.len() {
                        assert(stk2[q] == stk[q]);
                    }
                }
            }
            assert forall|i: int| 0 <= i < stk2.len() implies #[trigger] stk2[i] < n && self.marked@[stk2[i] as int] by {
                if i < stk.len() {
                    assert(stk2[i] == stk[i]);
                }
            }
            assert forall|k: int| 1 <= k < stk2.len() implies self.edge_to@[#[trigger] stk2[k] as int] == Some(stk2[k - 1]) by {
                if k < stk.len() {
                    assert(stk2[k] == stk[k] && stk2[k - 1] == stk[k - 1]);
                }
            }
            assert forall|i: int| #![trigger stk2[i]] 0 <= i < stk2.len() - 1 implies has_arc(a, stk2[i], stk2[i + 1]) by {
                if i < stk.len() - 1 {
                    assert(stk2[i] == stk[i] && stk2[i + 1] == stk[i + 1]);
                }
            }
            assert(is_walk(a, stk2));
            assert(!fin.contains(v)) by {
                if fin.contains(v) {
                    assert(marked0[v as int]);
                }
            }
            assert forall|x: usize| #[trigger] fin.contains(x) implies !stk2.contains(x) by {
            }
            assert(finished(a, self.marked@, fin, stk2));
        }
        let ghost mut fin_now = fin;
        let list = &adj[v];
        let mut i: usize = 0;
        #[verifier::loop_isolation(false)]
        while i < list.len() && self.cycle.is_none()
            invariant
                a == lists_view(adj@),
                n == a.len(),
                n == num_vertices,
                well_formed(a),
                v < n,
                list@ == a[v as int],
                i <= list@.len(),
                self.marked@.len() == n,
                self.edge_to@.len() == n,
                self.on_stack@ == stack0.update(v as int, true),
                self.marked@[v as int],
                forall|x: usize| x < n && #[trigger] marked0[x as int] ==> self.marked@[x as int] && self.edge_to@[x as int]
                    == edge0[x as int],
                self.edge_to@[v as int] == edge0[v as int],
                num_marked(self.marked@) > num_marked(marked0),
                num_marked(self.marked@) <= n,
                forall|x: usize| #[trigger] stk2.contains(x) <==> (stk.contains(x) || x == v),
                self.cycle matches Some(c) ==> is_cycle(a, c@),
                self.cycle is None ==> active_chain(a, self.marked@, self.edge_to@, self.on_stack@, stk2),
                self.cycle is None ==> finished(a, self.marked@, fin_now, stk2),
                self.cycle is None ==> forall|j: int| 0 <= j < i ==> self.marked@[#[trigger] list@[j] as int] && !stk2.contains(list@[j]),
            decreases list@.len() - i,
        {
            let w = list[i];
            proof {
                assert(a[v as int][i as int] == w);
                assert(has_arc(a, v, w));
                assert(w < n);
            }
            if !self.marked[w] {
                let ghost before = self.marked@;
                self.edge_to.set(w, Some(v));
                proof {
                    assert(!stk2.contains(w));
                    assert forall|k: int| 1 <= k < stk2.len() implies self.edge_to@[#[trigger] stk2[k] as int] == Some(stk2[k - 1]) by {
                        assert(stk2[k] != w);
                    }
                }
                let Ghost(f2) = self.search(adj, w, Ghost(stk2), Ghost(fin_now));
                proof {
                    assert forall|k: int| 0 <= k < before.len() && before[k] implies self.marked@[k] by {
                        assert(before[(k as usize) as int]);
                    }
                    lemma_num_marked_mono(before, self.marked@);
                    lemma_num_marked_bound(self.marked@);
                    if self.cycle.is_none() {
                        reveal(finished);
                        fin_now = f2;
                        assert forall|k: int| 1 <= k < stk2.len() implies self.edge_to@[#[trigger] stk2[k] as int] == Some(stk2[k - 1]) by {
                            assert(before[stk2[k] as int]);
                        }
                        assert forall|t: int| 0 <= t < stk2.len() implies #[trigger] stk2[t] < n && self.marked@[stk2[t] as int] by {
                            assert(before[stk2[t] as int]);
                        }
                        assert forall|j: int| 0 <= j < i + 1 implies self.marked@[#[trigger] list@[j] as int] && !stk2.contains(list@[j]) by {
                            if j < i {
                                assert(before[list@[j] as int]);
                            }
                        }
                    }
                }
            } else if self.on_stack[w] {
                proof {
                    assert(stk2.contains(w));
                    assert(stk2.last() == v);
                }
                let c = self.trace_cycle(v, w, Ghost(a), Ghost(stk2));
                self.cycle = Some(c);
            } else {
                proof {
                    assert(!stk2.contains(w));
                }
            }
            i += 1;
        }
        self.on_stack.set(v, false);
        proof {
            assert(self.on_stack@ =~= stack0) by {
                assert(!stk.contains(v));
                assert(!stack0[v as int]);
            }
        }
        if self.cycle.is_none() {
            proof {
                reveal(finished);
                let f = fin_now.push(v);
                assert(!fin_now.contains(v));
                assert forall|x: usize| #[trigger] f.contains(x) <==> (fin_now.contains(x) || x == v) by {
                    if fin_now.contains(x) {
                        let k = choose|k: int| 0 <= k < fin_now.len() && fin_now[k] == x;
                        assert(f[k] == x);
                    }
                    if f.contains(x) && x != v {
                        let k = choose|k: int| 0 <= k < f.len() && f[k] == x;
                        assert(fin_now[k] == x);
                    }
                    if x == v {
                        assert(f[f.len() - 1] == x);
                    }
                }
                assert forall|t: int, w: usize|
                    0 <= t < f.len() && #[trigger] has_arc(a, f[t], w) implies exists|j: int| 0 <= j < t && f[j] == w by {
                    if t < fin_now.len() {
                        assert(f[t] == fin_now[t]);
                        let j = choose|j: int| 0 <= j < t && fin_now[j] == w;
                        assert(f[j] == w);
                    } else {
                        let jj = choose|jj: int| 0 <= jj < a[v as int].len() && a[v as int][jj] == w;
                        assert(list@[jj] == w);
                        assert(self.marked@[w as int] && !stk2.contains(w));
                        assert(fin_now.contains(w));
                        let k = choose|k: int| 0 <= k < fin_now.len() && fin_now[k] == w;
                        assert(f[k] == w);
                    }
                }
                assert(f.no_duplicates()) by {
                    assert forall|p: int, q: int| 0 <= p < f.len() && 0 <= q < f.len() && p != q implies f[p] != f[q] by {
                        if p < fin_now.len() && q < fin_now.len() {
                            assert(f[p] == fin_now[p] && f[q] == fin_now[q]);
                        } else if p < fin_now.len() {
                            assert(f[p] == fin_now[p]);
                        } else if q < fin_now.len() {
                            assert(f[q] == fin_now[q]);
                        }
                    }
                }
                assert forall|t: int| 0 <= t < f.len() implies #[trigger] f[t] < n by {
                    if t < fin_now.len() {
                        assert(f[t] == fin_now[t]);
                    }
                }
                assert forall|x: usize| #[trigger] f.contains(x) implies !stk.contains(x) by {
                    if fin_now.contains(x) {
                        assert(!stk2.contains(x));
                    }
                }
                assert(finished(a, self.marked@, f, stk));
                fin_now = f;
            }
        }
        Ghost(fin_now)
    }

    /// Searches the whole digraph for a directed cycle.
    pub fn new(g: &Digraph) -> (r: Self)
        requires
            g.wf(),
        ensures
            r.found() is Some <==> has_cycle(g@),
            r.found() matches Some(c) ==> is_cycle(g@, c@),
    {
        let adj = g.lists();
        let n = adj.len();
        let ghost a = lists_view(adj@);
        let mut marked: Vec<bool> = Vec::new();
        let mut edge_to: Vec<Option<usize>> = Vec::new();
        let mut on_stack: Vec<bool> = Vec::new();
        let mut i: usize = 0;
        while i < n
            invariant
                i <= n,
                n == adj@.len(),
                marked@ == Seq::new(i as nat, |k: int| false),
                on_stack@ == Seq::new(i as nat, |k: int| false),
                edge_to@ == Seq::new(i as nat, |k: int| None::<usize>),
            decreases n - i,
        {
            marked.push(false);
            on_stack.push(false);
            edge_to.push(None);
            i += 1;
            assert(marked@ =~= Seq::new(i as nat, |k: int| false));
            assert(on_stack@ =~= Seq::new(i as nat, |k: int| false));
            assert(edge_to@ =~= Seq::new(i as nat, |k: int| None::<usize>));
        }
        let mut dc = DirectedCycle { marked, edge_to, on_stack, cycle: None };
        let ghost mut fin: Seq<usize> = Seq::empty();
        proof {
            reveal(finished);
        }
        let mut v: usize = 0;
        while v < n
            invariant
                a == lists_view(adj@),
                a == g@,
                n == a.len(),
                well_formed(a),
                v <= n,
                dc.marked@.len() == n,
                dc.edge_to@.len() == n,
                dc.on_stack@ == Seq::new(n as nat, |k: int| false),
                dc.cycle matches Some(c) ==> is_cycle(a, c@),
                dc.cycle is None ==> finished(a, dc.marked@, fin, Seq::empty()),
                dc.cycle is None ==> forall|u: int| 0 <= u < v ==> dc.marked@[u],
            decreases n - v,
        {
            if dc.cycle.is_none() && !dc.marked[v] {
                proof {
                    assert(active_chain(a, dc.marked@, dc.edge_to@, dc.on_stack@, Seq::empty()));
                }
                let ghost before = dc.marked@;
                let Ghost(f) = dc.search(adj, v, Ghost(Seq::empty()), Ghost(fin));
                proof {
                    fin = f;
                    assert forall|u: int| 0 <= u < v implies dc.marked@[u] by {
                        assert(before[(u as usize) as int]);
                    }
                }
            }
            v += 1;
        }
        proof {
            if dc.cycle.is_none() {
                reveal(finished);
                assert forall|x: usize| x < n implies #[trigger] fin.contains(x) by {
                    assert(dc.marked@[x as int]);
                }
                lemma_strict_order_acyclic(a, fin);
            } else {
                lemma_cycle_witness(a, dc.cycle->Some_0@);
            }
        }
        dc
    }
}

} // verus!
