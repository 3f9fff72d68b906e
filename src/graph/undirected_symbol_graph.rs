//! Undirected graphs whose vertices carry names.
use super::undirected_graph::Graph;
use super::symbols::{
    arc_total, collect_names, find, first_seen, flat, lemma_arc_total_prefix, lists_arc, lists_arc_before, mentions,
    names_view, records_view,
};
use super::has_arc;
use vstd::prelude::*;

verus! {

/// A graph over named vertices: each distinct name is a vertex, numbered in the order the
/// names first appear.
pub struct SymbolGraph {
    g: Graph,
    names: Vec<String>,
}

proof fn lemma_step(recs: Seq<Seq<Seq<char>>>, nv: Seq<Seq<char>>, r: int, k: int, u: usize, x: usize, v: usize, w: usize)
    requires
        nv.no_duplicates(),
        u < nv.len(),
        x < nv.len(),
        v < nv.len(),
        w < nv.len(),
        0 <= r < recs.len(),
        1 <= k < recs[r].len(),
        nv[v as int] == recs[r][0],
        nv[w as int] == recs[r][k],
    ensures
        lists_arc_before(recs, nv[u as int], nv[x as int], r, k + 1) <==> (lists_arc_before(recs, nv[u as int], nv[x as int], r, k)
            || (u == v && x == w)),
{
    if lists_arc_before(recs, nv[u as int], nv[x as int], r, k + 1) && !lists_arc_before(recs, nv[u as int], nv[x as int], r, k) {
        let (r2, k2) = choose|r2: int, k2: int|
            0 <= r2 <= r && r2 < recs.len() && 1 <= k2 < recs[r2].len() && (r2 < r || k2 < k + 1) && recs[r2][0] == nv[u as int]
                && #[trigger] recs[r2][k2] == nv[x as int];
        assert(r2 == r && k2 == k);
        assert(nv[u as int] == nv[v as int]);
        assert(nv[x as int] == nv[w as int]);
    }
    if u == v && x == w {
        assert(recs[r][k] == nv[x as int]);
    }
}

proof fn lemma_next_record(recs: Seq<Seq<Seq<char>>>, a: Seq<char>, b: Seq<char>, r: int, k: int)
    requires
        0 <= r < recs.len(),
        k == recs[r].len(),
    ensures
        lists_arc_before(recs, a, b, r + 1, 1) <==> lists_arc_before(recs, a, b, r, k),
{
    if lists_arc_before(recs, a, b, r + 1, 1) {
        let (r2, k2) = choose|r2: int, k2: int|
            0 <= r2 <= r + 1 && r2 < recs.len() && 1 <= k2 < recs[r2].len() && (r2 < r + 1 || k2 < 1) && recs[r2][0] == a
                && #[trigger] recs[r2][k2] == b;
        assert(lists_arc_before(recs, a, b, r, k));
    }
}

proof fn lemma_all_records(recs: Seq<Seq<Seq<char>>>, a: Seq<char>, b: Seq<char>, r: int)
    requires
        r == recs.len(),
    ensures
        lists_arc_before(recs, a, b, r, 1) <==> lists_arc(recs, a, b),
{
    if lists_arc(recs, a, b) {
        let (r2, k2) = choose|r2: int, k2: int| 0 <= r2 < recs.len() && 1 <= k2 < recs[r2].len() && recs[r2][0] == a && #[trigger] recs[r2][k2] == b;
        assert(lists_arc_before(recs, a, b, r, 1));
    }
}

impl SymbolGraph {
    /// The name of each vertex.
    pub closed spec fn names(&self) -> Seq<Seq<char>> {
        names_view(self.names@)
    }

    /// The graph over the vertex numbers.
    pub closed spec fn graph(&self) -> Seq<Seq<usize>> {
        self.g@
    }

    /// One distinct name per vertex.
    pub closed spec fn wf(&self) -> bool {
        &&& self.g.wf()
        &&& self.g@.len() == self.names@.len()
        &&& names_view(self.names@).no_duplicates()
    }

    /// Builds the graph from records: the first name of each record has an edge to each of
    /// the others.
    pub fn new(edges: &Vec<Vec<String>>) -> (r: Self)
        requires
            forall|i: int| 0 <= i < edges@.len() ==> #[trigger] edges@[i]@.len() > 0,
            arc_total(records_view(edges@)) <= usize::MAX,
        ensures
            r.wf(),
            r.graph().len() == r.names().len(),
            r.names() == first_seen(flat(records_view(edges@))),
            forall|x: Seq<char>| #[trigger] r.names().contains(x) <==> mentions(records_view(edges@), x),
            forall|u: usize, w: usize|
                u < r.names().len() && w < r.names().len() ==> (#[trigger] has_arc(r.graph(), u, w) <==> (lists_arc(
                    records_view(edges@),
                    r.names()[u as int],
                    r.names()[w as int],
                ) || lists_arc(records_view(edges@), r.names()[w as int], r.names()[u as int]))),
    {
        let ghost recs = records_view(edges@);
        let names = collect_names(edges);
        let ghost nv = names_view(names@);
        let n = names.len();
        let mut g = Graph::new(n);
        let mut r: usize = 0;
        while r < edges.len()
            invariant
                recs == records_view(edges@),
                nv == names_view(names@),
                nv.no_duplicates(),
                forall|x: Seq<char>| #[trigger] nv.contains(x) <==> mentions(recs, x),
                forall|i: int| 0 <= i < edges@.len() ==> #[trigger] edges@[i]@.len() > 0,
                arc_total(recs) <= usize::MAX,
                n == names@.len(),
                r <= edges@.len(),
                g.wf(),
                g@.len() == n,
                g.edge_count() == arc_total(recs.subrange(0, r as int)),
                forall|u: usize, w: usize|
                    u < n && w < n ==> (#[trigger] has_arc(g@, u, w) <==> (lists_arc_before(recs, nv[u as int], nv[w as int], r as int, 1) || lists_arc_before(recs, nv[w as int], nv[u as int], r as int, 1))),
            decreases edges@.len() - r,
        {
            let record = &edges[r];
            proof {
                lemma_arc_total_prefix(recs, r as int);
                lemma_arc_total_prefix(recs, r as int + 1);
                assert(recs[r as int][0] == record@[0]@);
                assert(mentions(recs, record@[0]@));
            }
            let v = find(&names, &record[0]).unwrap();
            let mut k: usize = 1;
            while k < record.len()
                invariant
                    recs == records_view(edges@),
                    nv == names_view(names@),
                    nv.no_duplicates(),
                    forall|x: Seq<char>| #[trigger] nv.contains(x) <==> mentions(recs, x),
                    r < edges@.len(),
                    record@ == edges@[r as int]@,
                    1 <= k <= record@.len(),
                    v < n,
                    nv[v as int] == recs[r as int][0],
                    n == names@.len(),
                    g.wf(),
                    g@.len() == n,
                    g.edge_count() == arc_total(recs.subrange(0, r as int)) + k - 1,
                    arc_total(recs.subrange(0, r as int)) + record@.len() - 1 <= usize::MAX,
                    forall|u: usize, w: usize|
                        u < n && w < n ==> (#[trigger] has_arc(g@, u, w) <==> (lists_arc_before(recs, nv[u as int], nv[w as int], r as int, k as int) || lists_arc_before(recs, nv[w as int], nv[u as int], r as int, k as int))),
                decreases record@.len() - k,
            {
                proof {
                    assert(recs[r as int][k as int] == record@[k as int]@);
                    assert(mentions(recs, record@[k as int]@));
                }
                let w = find(&names, &record[k]).unwrap();
                let ghost before = g@;
                g.add_edge(v, w);
                proof {
                    assert forall|u: usize, x: usize|
                        u < n && x < n implies (#[trigger] has_arc(g@, u, x) <==> (lists_arc_before(recs, nv[u as int], nv[x as int], r as int, k + 1) || lists_arc_before(recs, nv[x as int], nv[u as int], r as int, k + 1))) by {
                        assert(has_arc(g@, u, x) <==> (has_arc(before, u, x) || (u == v && x == w) || (u == w && x == v)));
                        lemma_step(recs, nv, r as int, k as int, u, x, v, w);
                        lemma_step(recs, nv, r as int, k as int, x, u, v, w);
                    }
                }
                k += 1;
            }
            proof {
                assert forall|u: usize, x: usize|
                    u < n && x < n implies (#[trigger] has_arc(g@, u, x) <==> (lists_arc_before(recs, nv[u as int], nv[x as int], r + 1, 1) || lists_arc_before(recs, nv[x as int], nv[u as int], r + 1, 1))) by {
                    lemma_next_record(recs, nv[u as int], nv[x as int], r as int, k as int);
                    lemma_next_record(recs, nv[x as int], nv[u as int], r as int, k as int);
                }
            }
            r += 1;
        }
        proof {
            assert(recs.subrange(0, r as int) =~= recs);
            assert forall|u: usize, x: usize|
                u < n && x < n implies (#[trigger] has_arc(g@, u, x) <==> (lists_arc(recs, nv[u as int], nv[x as int]) || lists_arc(recs, nv[x as int], nv[u as int]))) by {
                lemma_all_records(recs, nv[u as int], nv[x as int], r as int);
                lemma_all_records(recs, nv[x as int], nv[u as int], r as int);
            }
        }
        SymbolGraph { g, names }
    }

    /// The vertex named `name`.
    pub fn index(&self, name: &str) -> (r: usize)
        requires
            self.wf(),
            self.names().contains(name@),
        ensures
            r < self.names().len(),
            self.names()[r as int] == name@,
    {
        let key = name.to_owned();
        find(&self.names, &key).unwrap()
    }

    /// The name of vertex `index`.
    pub fn name(&self, index: usize) -> (r: &str)
        requires
            index < self.names().len(),
        ensures
            r@ == self.names()[index as int],
    {
        self.names[index].as_str()
    }

    /// Is `name` the name of a vertex?
    pub fn contains(&self, name: &str) -> (r: bool)
        ensures
            r == self.names().contains(name@),
    {
        let key = name.to_owned();
        let found = find(&self.names, &key);
        if let Some(i) = found {
            assert(self.names()[i as int] == name@);
        }
        found.is_some()
    }

    /// The graph over the vertex numbers.
    pub fn g(&self) -> (r: &Graph)
        requires
            self.wf(),
        ensures
            r@ == self.graph(),
            r.wf(),
    {
        &self.g
    }
}

} // verus!
