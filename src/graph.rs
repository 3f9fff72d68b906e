//! Graphs over dense vertex ids, their traversals, and the model that the
//! traversals are proved against.
use vstd::prelude::*;

pub mod directed_graph;
pub mod directed_symbol_graph;
pub mod strong_connected;
pub mod topological;
mod symbols;
mod traversal;
pub mod undirected_graph;
pub mod undirected_symbol_graph;

verus! {

/// The adjacency lists of a store as sequences.
pub open spec fn lists_view(lists: Seq<Vec<usize>>) -> Seq<Seq<usize>> {
    lists.map_values(|l: Vec<usize>| l@)
}

/// Every neighbour named in the lists is a vertex.
pub open spec fn well_formed(adj: Seq<Seq<usize>>) -> bool {
    forall|v: int, j: int|
        0 <= v < adj.len() && 0 <= j < adj[v].len() ==> #[trigger] adj[v][j] < adj.len()
}

/// There is an arc from `v` to `w`.
pub open spec fn has_arc(adj: Seq<Seq<usize>>, v: usize, w: usize) -> bool {
    v < adj.len() && adj[v as int].contains(w)
}

/// `p` is a walk: a non-empty sequence of vertices, each joined to the next by an arc.
pub open spec fn is_walk(adj: Seq<Seq<usize>>, p: Seq<usize>) -> bool {
    &&& p.len() >= 1
    &&& forall|i: int| 0 <= i < p.len() ==> #[trigger] p[i] < adj.len()
    &&& forall|i: int| #![trigger p[i]] 0 <= i < p.len() - 1 ==> has_arc(adj, p[i], p[i + 1])
}

/// Some walk leads from `s` to `v`.
pub open spec fn reachable(adj: Seq<Seq<usize>>, s: usize, v: usize) -> bool {
    exists|p: Seq<usize>| #[trigger] is_walk(adj, p) && p[0] == s && p.last() == v
}

/// Some arc closes a walk into a cycle.
pub open spec fn has_cycle(adj: Seq<Seq<usize>>) -> bool {
    exists|v: usize, w: usize| #[trigger] has_arc(adj, v, w) && reachable(adj, w, v)
}

/// `c` lists a directed cycle: each vertex has an arc to the next, and the last to the first.
pub open spec fn is_cycle(adj: Seq<Seq<usize>>, c: Seq<usize>) -> bool {
    is_walk(adj, c) && has_arc(adj, c.last(), c[0])
}

/// `p` is a walk from `s` to `v` with no fewer vertices than any other such walk.
pub open spec fn is_shortest(adj: Seq<Seq<usize>>, s: usize, v: usize, p: Seq<usize>) -> bool {
    &&& is_walk(adj, p)
    &&& p[0] == s
    &&& p.last() == v
    &&& forall|q: Seq<usize>| is_walk(adj, q) && q[0] == s && #[trigger] q.last() == v ==> p.len() <= q.len()
}

/// A walk from `s` to `v` (a depth-first path, say) is at least as long as a shortest one
/// (a breadth-first path).
pub proof fn lemma_shortest_is_lower_bound(adj: Seq<Seq<usize>>, s: usize, v: usize, shortest: Seq<usize>, other: Seq<usize>)
    requires
        is_shortest(adj, s, v, shortest),
        is_walk(adj, other),
        other[0] == s,
        other.last() == v,
    ensures
        shortest.len() <= other.len(),
{
}

/// Number of `true` entries.
pub open spec fn num_marked(s: Seq<bool>) -> nat
    decreases s.len(),
{
    if s.len() == 0 {
        0
    } else {
        num_marked(s.drop_last()) + if s.last() {
            1nat
        } else {
            0nat
        }
    }
}

/// Every marked vertex outside `active` has all its neighbours marked.
#[verifier::opaque]
pub open spec fn closed_except(adj: Seq<Seq<usize>>, marked: Seq<bool>, active: Seq<usize>) -> bool {
    forall|v: usize, j: int|
        v < adj.len() && marked[v as int] && !active.contains(v) && 0 <= j < adj[v as int].len()
            ==> marked[#[trigger] adj[v as int][j] as int]
}

pub proof fn lemma_reachable_self(adj: Seq<Seq<usize>>, s: usize)
    requires
        s < adj.len(),
    ensures
        reachable(adj, s, s),
{
    let p = seq![s];
    assert(is_walk(adj, p));
}

pub proof fn lemma_arc_in_range(adj: Seq<Seq<usize>>, v: usize, w: usize)
    requires
        well_formed(adj),
        has_arc(adj, v, w),
    ensures
        w < adj.len(),
{
    let j = choose|j: int| 0 <= j < adj[v as int].len() && adj[v as int][j] == w;
    assert(adj[v as int][j] < adj.len());
}

pub proof fn lemma_reachable_append(adj: Seq<Seq<usize>>, s: usize, v: usize, w: usize)
    requires
        well_formed(adj),
        reachable(adj, s, v),
        has_arc(adj, v, w),
    ensures
        reachable(adj, s, w),
{
    let p = choose|p: Seq<usize>| is_walk(adj, p) && p[0] == s && p.last() == v;
    lemma_arc_in_range(adj, v, w);
    let q = p.push(w);
    assert forall|i: int| #![trigger q[i]] 0 <= i < q.len() - 1 implies has_arc(adj, q[i], q[i + 1]) by {
        if i < p.len() - 1 {
            assert(q[i] == p[i] && q[i + 1] == p[i + 1]);
        }
    }
    assert(is_walk(adj, q));
}

pub proof fn lemma_reachable_prepend(adj: Seq<Seq<usize>>, s: usize, v: usize, w: usize)
    requires
        well_formed(adj),
        has_arc(adj, s, v),
        reachable(adj, v, w),
    ensures
        reachable(adj, s, w),
{
    let p = choose|p: Seq<usize>| is_walk(adj, p) && p[0] == v && p.last() == w;
    let q = seq![s] + p;
    assert forall|i: int| #![trigger q[i]] 0 <= i < q.len() - 1 implies has_arc(adj, q[i], q[i + 1]) by {
        if i > 0 {
            assert(q[i] == p[i - 1] && q[i + 1] == p[i]);
        }
    }
    assert forall|i: int| 0 <= i < q.len() implies #[trigger] q[i] < adj.len() by {
        if i > 0 {
            assert(q[i] == p[i - 1]);
        }
    }
    assert(is_walk(adj, q));
}

pub proof fn lemma_reachable_trans(adj: Seq<Seq<usize>>, s: usize, v: usize, w: usize)
    requires
        well_formed(adj),
        reachable(adj, s, v),
        reachable(adj, v, w),
    ensures
        reachable(adj, s, w),
{
    let p = choose|p: Seq<usize>| is_walk(adj, p) && p[0] == s && p.last() == v;
    let q = choose|q: Seq<usize>| is_walk(adj, q) && q[0] == v && q.last() == w;
    let r = p + q.drop_first();
    assert forall|i: int| 0 <= i < r.len() implies #[trigger] r[i] < adj.len() by {
        if i >= p.len() {
            assert(r[i] == q[i - p.len() + 1]);
        }
    }
    assert forall|i: int| #![trigger r[i]] 0 <= i < r.len() - 1 implies has_arc(adj, r[i], r[i + 1]) by {
        if i < p.len() - 1 {
            assert(r[i] == p[i] && r[i + 1] == p[i + 1]);
        } else if i == p.len() - 1 {
            assert(r[i] == q[0] && r[i + 1] == q[1]);
        } else {
            assert(r[i] == q[i - p.len() + 1] && r[i + 1] == q[i - p.len() + 2]);
        }
    }
    assert(is_walk(adj, r));
}

/// A suffix of a walk leads from any of its vertices to its end.
pub proof fn lemma_walk_suffix(adj: Seq<Seq<usize>>, p: Seq<usize>, k: int)
    requires
        is_walk(adj, p),
        0 <= k < p.len(),
    ensures
        reachable(adj, p[k], p.last()),
{
    let q = p.subrange(k, p.len() as int);
    assert forall|i: int| #![trigger q[i]] 0 <= i < q.len() - 1 implies has_arc(adj, q[i], q[i + 1]) by {
        assert(q[i] == p[i + k] && q[i + 1] == p[i + k + 1]);
    }
    assert forall|i: int| 0 <= i < q.len() implies #[trigger] q[i] < adj.len() by {
        assert(q[i] == p[i + k]);
    }
    assert(is_walk(adj, q));
}

/// Every vertex of a walk that starts in a set closed under arcs is in the set.
proof fn lemma_walk_stays_marked(adj: Seq<Seq<usize>>, marked: Seq<bool>, p: Seq<usize>, k: int)
    requires
        marked.len() == adj.len(),
        closed_except(adj, marked, Seq::empty()),
        is_walk(adj, p),
        marked[p[0] as int],
        0 <= k < p.len(),
    ensures
        marked[p[k] as int],
    decreases k,
{
    if k > 0 {
        reveal(closed_except);
        lemma_walk_stays_marked(adj, marked, p, k - 1);
        let v = p[k - 1];
        assert(has_arc(adj, v, p[k]));
        let j = choose|j: int| 0 <= j < adj[v as int].len() && adj[v as int][j] == p[k];
        assert(marked[adj[v as int][j] as int]);
    }
}

/// A marked set that holds `s` and is closed under arcs holds everything reachable from `s`.
pub proof fn lemma_closed_holds_reachable(adj: Seq<Seq<usize>>, marked: Seq<bool>, s: usize, v: usize)
    requires
        marked.len() == adj.len(),
        closed_except(adj, marked, Seq::empty()),
        s < adj.len(),
        marked[s as int],
        reachable(adj, s, v),
    ensures
        marked[v as int],
{
    let p = choose|p: Seq<usize>| is_walk(adj, p) && p[0] == s && p.last() == v;
    lemma_walk_stays_marked(adj, marked, p, p.len() - 1);
}

pub proof fn lemma_num_marked_bound(s: Seq<bool>)
    ensures
        num_marked(s) <= s.len(),
    decreases s.len(),
{
    if s.len() > 0 {
        lemma_num_marked_bound(s.drop_last());
    }
}

/// Marking one more entry adds one to the count.
pub proof fn lemma_num_marked_set(s: Seq<bool>, i: int)
    requires
        0 <= i < s.len(),
        !s[i],
    ensures
        num_marked(s.update(i, true)) == num_marked(s) + 1,
    decreases s.len(),
{
    let t = s.update(i, true);
    if i == s.len() - 1 {
        assert(t.drop_last() =~= s.drop_last());
    } else {
        assert(t.drop_last() =~= s.drop_last().update(i, true));
        lemma_num_marked_set(s.drop_last(), i);
    }
}

/// A sequence with no `true` entry counts zero.
pub proof fn lemma_all_false(s: Seq<bool>)
    requires
        forall|i: int| 0 <= i < s.len() ==> !s[i],
    ensures
        num_marked(s) == 0,
    decreases s.len(),
{
    if s.len() > 0 {
        lemma_all_false(s.drop_last());
    }
}

/// A count never falls when entries only turn from `false` to `true`.
pub proof fn lemma_num_marked_mono(s: Seq<bool>, t: Seq<bool>)
    requires
        s.len() == t.len(),
        forall|i: int| 0 <= i < s.len() && s[i] ==> t[i],
    ensures
        num_marked(s) <= num_marked(t),
    decreases s.len(),
{
    if s.len() > 0 {
        lemma_num_marked_mono(s.drop_last(), t.drop_last());
    }
}

} // verus!
