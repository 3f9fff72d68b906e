//! Undirected graphs and the searches over them.
use super::traversal::{bfs_from, count_marked, rooted_tree, search_from, tree_path};
use super::{is_shortest, is_walk, lists_view, num_marked, reachable, well_formed};
use vstd::prelude::*;

verus! {

/// An undirected graph as adjacency lists over the vertices `0..num_vertices`.
/// Each edge `v-w` stands in the list of `v` and in the list of `w`.
pub struct Graph {
    adj_list: Vec<Vec<usize>>,
    num_edges: usize,
}

impl View for Graph {
    /// For each vertex, its neighbours in the order the edges were added.
    type V = Seq<Seq<usize>>;

    closed spec fn view(&self) -> Seq<Seq<usize>> {
        lists_view(self.adj_list@)
    }
}

/// `w` is a neighbour of `v` exactly when `v` is a neighbour of `w`.
pub open spec fn symmetric(adj: Seq<Seq<usize>>) -> bool {
    forall|v: usize, w: usize|
        v < adj.len() && w < adj.len() ==> (#[trigger] adj[v as int].contains(w)
            <==> #[trigger] adj[w as int].contains(v))
}

/// In any graph, `w` is a neighbour of `v` exactly when `v` is a neighbour of `w`.
pub proof fn lemma_adjacency_symmetric(g: &Graph)
    requires
        g.wf(),
    ensures
        forall|v: usize, w: usize|
            v < g@.len() && w < g@.len() ==> (#[trigger] g@[v as int].contains(w) <==> #[trigger] g@[w as int].contains(v)),
{
}

/// The adjacency lists after adding `edges` in order to `num_vertices` empty lists.
pub open spec fn with_edges(num_vertices: nat, edges: Seq<(usize, usize)>) -> Seq<Seq<usize>>
    decreases edges.len(),
{
    if edges.len() == 0 {
        Seq::new(num_vertices, |i: int| Seq::<usize>::empty())
    } else {
        let g = with_edges(num_vertices, edges.drop_last());
        let (v, w) = edges.last();
        let h = g.update(v as int, g[v as int].push(w));
        h.update(w as int, h[w as int].push(v))
    }
}

impl Graph {
    /// Number of edges added so far.
    pub closed spec fn edge_count(&self) -> nat {
        self.num_edges as nat
    }

    /// Every neighbour is a vertex, and adjacency is symmetric.
    pub open spec fn wf(&self) -> bool {
        well_formed(self@) && symmetric(self@)
    }

    pub(crate) fn lists(&self) -> (r: &Vec<Vec<usize>>)
        ensures
            lists_view(r@) == self@,
    {
        &self.adj_list
    }

    /// A graph with `num_vertices` vertices and no edges.
    pub fn new(num_vertices: usize) -> (g: Self)
        ensures
            g@ == Seq::new(num_vertices as nat, |i: int| Seq::<usize>::empty()),
            g.wf(),
            g.edge_count() == 0,
    {
        let mut adj_list: Vec<Vec<usize>> = Vec::new();
        let mut v: usize = 0;
        while v < num_vertices
            invariant
                v <= num_vertices,
                adj_list@.len() == v,
                forall|i: int| 0 <= i < v ==> (#[trigger] adj_list@[i])@ == Seq::<usize>::empty(),
            decreases num_vertices - v,
        {
            let empty: Vec<usize> = Vec::new();
            adj_list.push(empty);
            v += 1;
        }
        assert(lists_view(adj_list@) =~= Seq::new(num_vertices as nat, |i: int| Seq::<usize>::empty()));
        Graph { adj_list, num_edges: 0 }
    }

    /// The graph on `num_vertices` vertices with the edges `edges`, added in order.
    pub fn from_edges(num_vertices: usize, edges: &Vec<(usize, usize)>) -> (g: Self)
        requires
            forall|i: int| 0 <= i < edges@.len() ==> #[trigger] edges@[i].0 < num_vertices && edges@[i].1 < num_vertices,
        ensures
            g.wf(),
            g@ == with_edges(num_vertices as nat, edges@),
            g.edge_count() == edges@.len(),
    {
        let mut g = Graph::new(num_vertices);
        let mut i: usize = 0;
        while i < edges.len()
            invariant
                i <= edges@.len(),
                forall|k: int| 0 <= k < edges@.len() ==> #[trigger] edges@[k].0 < num_vertices && edges@[k].1 < num_vertices,
                g.wf(),
                g@.len() == num_vertices,
                g@ == with_edges(num_vertices as nat, edges@.subrange(0, i as int)),
                g.edge_count() == i,
            decreases edges@.len() - i,
        {
            let (v, w) = edges[i];
            proof {
                assert(edges@.subrange(0, i + 1).drop_last() =~= edges@.subrange(0, i as int));
                assert(edges@.subrange(0, i + 1).last() == edges@[i as int]);
            }
            g.add_edge(v, w);
            i += 1;
        }
        assert(edges@.subrange(0, i as int) =~= edges@);
        g
    }

    pub fn num_vertices(&self) -> (r: usize)
        ensures
            r == self@.len(),
    {
        self.adj_list.len()
    }

    pub fn num_edges(&self) -> (r: usize)
        ensures
            r == self.edge_count(),
    {
        self.num_edges
    }

    /// Adds the edge `v-w`: `w` goes at the end of the list of `v`, and `v` at the end of the
    /// list of `w`.
    pub fn add_edge(&mut self, v: usize, w: usize)
        requires
            v < old(self)@.len(),
            w < old(self)@.len(),
            old(self).edge_count() < usize::MAX,
        ensures
            final(self)@ == old(self)@.update(v as int, old(self)@[v as int].push(w)).update(
                w as int,
                old(self)@.update(v as int, old(self)@[v as int].push(w))[w as int].push(v),
            ),
            final(self).edge_count() == old(self).edge_count() + 1,
            old(self).wf() ==> final(self).wf(),
            forall|z: int, u: usize|
                0 <= z < final(self)@.len() ==> (#[trigger] final(self)@[z].contains(u) <==> (old(self)@[z].contains(u) || (z
                    == v && u == w) || (z == w && u == v))),
    {
        let ghost a = old(self)@;
        let ghost b = a.update(v as int, a[v as int].push(w));
        let ghost c = b.update(w as int, b[w as int].push(v));
        self.adj_list[v].push(w);
        assert(self@ =~= b);
        self.adj_list[w].push(v);
        assert(self@ =~= c);
        self.num_edges = self.num_edges + 1;
        proof {
            assert forall|z: int, u: usize| 0 <= z < c.len() implies (#[trigger] c[z].contains(u) <==> (
            a[z].contains(u) || (z == v && u == w) || (z == w && u == v))) by {
                if c[z].contains(u) {
                    let k = choose|k: int| 0 <= k < c[z].len() && c[z][k] == u;
                    if z == w && k == c[z].len() - 1 {
                    } else if z == v && k == b[z].len() - 1 {
                    } else {
                        assert(a[z][k] == u);
                    }
                }
                if a[z].contains(u) {
                    let k = choose|k: int| 0 <= k < a[z].len() && a[z][k] == u;
                    assert(c[z][k] == u);
                }
                if z == v && u == w {
                    if v == w {
                        assert(c[z][c[z].len() - 2] == u);
                    } else {
                        assert(c[z][c[z].len() - 1] == u);
                    }
                }
                if z == w && u == v {
                    assert(c[z][c[z].len() - 1] == u);
                }
            }
            if old(self).wf() {
                assert forall|x: int, j: int| 0 <= x < c.len() && 0 <= j < c[x].len() implies #[trigger] c[x][j]
                    < c.len() by {
                    assert(c[x].contains(c[x][j]));
                    if a[x].contains(c[x][j]) {
                        let k = choose|k: int| 0 <= k < a[x].len() && a[x][k] == c[x][j];
                        assert(a[x][k] < a.len());
                    }
                }
            }
        }
    }

    /// The neighbours of `v`, in the order the edges were added.
    pub fn adj(&self, v: usize) -> (r: Vec<usize>)
        requires
            v < self@.len(),
        ensures
            r@ == self@[v as int],
    {
        let list = &self.adj_list[v];
        let mut r: Vec<usize> = Vec::new();
        let mut j: usize = 0;
        while j < list.len()
            invariant
                j <= list@.len(),
                list@ == self@[v as int],
                r@ == list@.subrange(0, j as int),
            decreases list@.len() - j,
        {
            r.push(list[j]);
            j += 1;
            assert(r@ =~= list@.subrange(0, j as int));
        }
        assert(r@ =~= list@);
        r
    }

    pub fn degree(&self, v: usize) -> (r: usize)
        requires
            v < self@.len(),
        ensures
            r == self@[v as int].len(),
    {
        self.adj_list[v].len()
    }

    /// The largest degree of any vertex; 0 when there is no vertex.
    pub fn max_degree(&self) -> (r: usize)
        ensures
            forall|v: int| 0 <= v < self@.len() ==> #[trigger] self@[v].len() <= r,
            self@.len() == 0 ==> r == 0,
            self@.len() > 0 ==> exists|v: int| 0 <= v < self@.len() && #[trigger] self@[v].len() == r,
    {
        let mut max_degree: usize = 0;
        let n = self.num_vertices();
        let mut i: usize = 0;
        while i < n
            invariant
                i <= n,
                n == self@.len(),
                forall|v: int| 0 <= v < i ==> #[trigger] self@[v].len() <= max_degree,
                i == 0 ==> max_degree == 0,
                i > 0 ==> exists|v: int| 0 <= v < i && #[trigger] self@[v].len() == max_degree,
            decreases n - i,
        {
            let i_degree = self.degree(i);
            if i == 0 || i_degree > max_degree {
                max_degree = i_degree;
            }
            i += 1;
        }
        max_degree
    }

    /// Twice the number of edges over the number of vertices, rounded down.
    pub fn average_degree(&self) -> (r: usize)
        requires
            self@.len() > 0,
            2 * self.edge_count() <= usize::MAX,
        ensures
            r == 2 * self.edge_count() / self@.len() as nat,
    {
        self.num_edges() * 2 / self.num_vertices()
    }
}

/// Finds the vertices connected to a source vertex.
pub trait Search: Sized {
    /// For each vertex, whether it is connected to the source.
    spec fn connected(&self) -> Seq<bool>;

    /// The number of vertices connected to the source.
    spec fn connected_count(&self) -> nat;

    /// Finds the vertices connected to `s`.
    fn new(g: &Graph, s: usize) -> (r: Self)
        requires
            g.wf(),
            s < g@.len(),
        ensures
            r.connected().len() == g@.len(),
            forall|v: usize| v < g@.len() ==> (#[trigger] r.connected()[v as int] <==> reachable(g@, s, v)),
            r.connected_count() == num_marked(r.connected());

    /// Is `v` connected to the source?
    fn marked(&self, v: usize) -> (r: bool)
        requires
            v < self.connected().len(),
        ensures
            r == self.connected()[v as int];

    /// How many vertices are connected to the source?
    fn count(&self) -> (r: usize)
        ensures
            r == self.connected_count();
}

/// Finds paths in a graph from a source vertex.
pub trait Paths: Sized {
    spec fn graph(&self) -> Seq<Seq<usize>>;

    spec fn source(&self) -> usize;

    spec fn wf(&self) -> bool;

    /// Whether every path found has the fewest edges.
    spec fn shortest(&self) -> bool;

    /// Searches `g` from `s`.
    fn new(g: &Graph, s: usize) -> (r: Self)
        requires
            g.wf(),
            s < g@.len(),
        ensures
            r.wf(),
            r.graph() == g@,
            r.source() == s;

    /// A path from the source to `v`, or `None` when `v` is not connected to it.
    fn path_to(&self, v: usize) -> (r: Option<Vec<usize>>)
        requires
            self.wf(),
            v < self.graph().len(),
        ensures
            r is None <==> !reachable(self.graph(), self.source(), v),
            r matches Some(p) ==> is_walk(self.graph(), p@) && p@[0] == self.source() && p@.last() == v
                && p@.len() <= self.graph().len(),
            self.shortest() ==> (r matches Some(p) ==> is_shortest(self.graph(), self.source(), v, p@));
}

/// The vertices connected to a source vertex, found by depth-first search.
pub struct DepthFirstSearch {
    marked: Vec<bool>,
    count: usize,
}

impl Search for DepthFirstSearch {
    closed spec fn connected(&self) -> Seq<bool> {
        self.marked@
    }

    closed spec fn connected_count(&self) -> nat {
        self.count as nat
    }

    fn new(g: &Graph, s: usize) -> (r: Self) {
        let (marked, _edge_to, _depth) = search_from(g.lists(), s);
        let count = count_marked(&marked);
        DepthFirstSearch { marked, count }
    }

    fn marked(&self, v: usize) -> (r: bool) {
        self.marked[v]
    }

    fn count(&self) -> (r: usize) {
        self.count
    }
}

/// Paths from a source vertex along a depth-first search tree.
pub struct DepthFirstPaths {
    marked: Vec<bool>,
    edge_to: Vec<Option<usize>>,
    s: usize,
    graph: Ghost<Seq<Seq<usize>>>,
    depth: Ghost<Seq<nat>>,
}

impl Paths for DepthFirstPaths {
    closed spec fn graph(&self) -> Seq<Seq<usize>> {
        self.graph@
    }

    closed spec fn source(&self) -> usize {
        self.s
    }

    /// The search tree reaches exactly the vertices connected to the source.
    closed spec fn wf(&self) -> bool {
        &&& well_formed(self.graph@)
        &&& rooted_tree(self.graph@, self.marked@, self.edge_to@, self.depth@, self.s)
        &&& forall|v: usize| v < self.graph@.len() ==> (#[trigger] self.marked@[v as int] <==> reachable(self.graph@, self.s, v))
    }

    open spec fn shortest(&self) -> bool {
        false
    }

    fn new(g: &Graph, s: usize) -> (r: Self) {
        let (marked, edge_to, depth) = search_from(g.lists(), s);
        DepthFirstPaths { marked, edge_to, s, graph: Ghost(g@), depth }
    }

    fn path_to(&self, v: usize) -> (r: Option<Vec<usize>>) {
        if !self.marked[v] {
            return None;
        }
        Some(tree_path(&self.edge_to, v, self.graph, Ghost(self.marked@), self.depth, Ghost(self.s)))
    }
}

/// Shortest paths from a source vertex along a breadth-first search tree.
pub struct BreadthFirstPaths {
    marked: Vec<bool>,
    edge_to: Vec<Option<usize>>,
    s: usize,
    graph: Ghost<Seq<Seq<usize>>>,
    depth: Ghost<Seq<nat>>,
}

impl Paths for BreadthFirstPaths {
    closed spec fn graph(&self) -> Seq<Seq<usize>> {
        self.graph@
    }

    closed spec fn source(&self) -> usize {
        self.s
    }

    /// The search tree reaches exactly the vertices connected to the source, each at its
    /// distance from the source.
    closed spec fn wf(&self) -> bool {
        &&& well_formed(self.graph@)
        &&& rooted_tree(self.graph@, self.marked@, self.edge_to@, self.depth@, self.s)
        &&& forall|v: usize| v < self.graph@.len() ==> (#[trigger] self.marked@[v as int] <==> reachable(self.graph@, self.s, v))
        &&& forall|v: usize, p: Seq<usize>|
            v < self.graph@.len() && #[trigger] self.marked@[v as int] && is_walk(self.graph@, p) && p[0] == self.s
                && #[trigger] p.last() == v ==> self.depth@[v as int] + 1 <= p.len()
    }

    open spec fn shortest(&self) -> bool {
        true
    }

    fn new(g: &Graph, s: usize) -> (r: Self) {
        let (marked, edge_to, depth) = bfs_from(g.lists(), s);
        BreadthFirstPaths { marked, edge_to, s, graph: Ghost(g@), depth }
    }

    fn path_to(&self, v: usize) -> (r: Option<Vec<usize>>) {
        if !self.marked[v] {
            return None;
        }
        Some(tree_path(&self.edge_to, v, self.graph, Ghost(self.marked@), self.depth, Ghost(self.s)))
    }
}

} // verus!
