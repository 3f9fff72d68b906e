//! The depth-first visit that the searches share.
use super::{
    closed_except, lemma_closed_holds_reachable, lemma_reachable_append, lemma_arc_in_range, has_arc, is_walk, lemma_num_marked_bound, lemma_num_marked_mono,
    lemma_num_marked_set, lemma_all_false, lemma_reachable_prepend, lemma_reachable_self, lemma_walk_suffix,
    lists_view, num_marked, reachable, well_formed,
};
use vstd::prelude::*;

verus! {

/// Each marked vertex hangs in a search forest: a root (no parent, depth 0) or a child of
/// a marked parent one level up. Depths stay below the number of marked vertices.
#[verifier::opaque]
pub open spec fn forest(
    adj: Seq<Seq<usize>>,
    marked: Seq<bool>,
    edge_to: Seq<Option<usize>>,
    depth: Seq<nat>,
) -> bool {
    forall|u: usize|
        u < adj.len() && #[trigger] marked[u as int] ==> {
            &&& depth[u as int] < num_marked(marked)
            &&& match edge_to[u as int] {
                None => depth[u as int] == 0,
                Some(p) => p < adj.len() && marked[p as int] && has_arc(adj, p, u) && depth[u as int]
                    == depth[p as int] + 1,
            }
        }
}

/// `v` is about to be marked, with its parent already set.
pub open spec fn prepared(
    adj: Seq<Seq<usize>>,
    marked: Seq<bool>,
    edge_to: Seq<Option<usize>>,
    depth: Seq<nat>,
    v: usize,
) -> bool {
    &&& depth[v as int] <= num_marked(marked)
    &&& match edge_to[v as int] {
        None => depth[v as int] == 0,
        Some(p) => p < adj.len() && marked[p as int] && has_arc(adj, p, v) && depth[v as int] == depth[
            p as int] + 1,
    }
}

/// Each arc out of a finished vertex leads to a vertex that finished earlier, or to one
/// from which the finished vertex can be reached.
pub open spec fn post_ordered(adj: Seq<Seq<usize>>, post: Seq<usize>) -> bool {
    forall|i: int, w: usize|
        0 <= i < post.len() && #[trigger] has_arc(adj, post[i], w) ==> (exists|j: int|
            0 <= j < i && post[j] == w) || reachable(adj, w, post[i])
}

/// Whatever a finished vertex reaches finished no later than it did, or the vertex reaches
/// back and forth a vertex that had not finished by then.
pub open spec fn fin_closed(adj: Seq<Seq<usize>>, post: Seq<usize>) -> bool {
    forall|i: int, y: usize|
        0 <= i < post.len() && #[trigger] reachable(adj, post[i], y) ==> (exists|j: int| 0 <= j <= i && post[j] == y) || (exists|
            c: usize,
        | reachable(adj, c, post[i]) && reachable(adj, post[i], c) && !post.subrange(0, i + 1).contains(c))
}

/// A prefix of a walk leads from its start to any of its vertices.
pub proof fn lemma_walk_prefix(adj: Seq<Seq<usize>>, p: Seq<usize>, k: int)
    requires
        is_walk(adj, p),
        0 <= k < p.len(),
    ensures
        reachable(adj, p[0], p[k]),
{
    let q = p.subrange(0, k + 1);
    assert forall|i: int| #![trigger q[i]] 0 <= i < q.len() - 1 implies has_arc(adj, q[i], q[i + 1]) by {
        assert(q[i] == p[i] && q[i + 1] == p[i + 1]);
    }
    assert forall|i: int| 0 <= i < q.len() implies #[trigger] q[i] < adj.len() by {
        assert(q[i] == p[i]);
    }
    assert(is_walk(adj, q));
}

/// The finished vertices, each once, together with the active ones are the marked ones.
#[verifier::opaque]
pub open spec fn finish_inv(
    adj: Seq<Seq<usize>>,
    marked: Seq<bool>,
    post: Seq<usize>,
    active: Seq<usize>,
) -> bool {
    &&& post.no_duplicates()
    &&& forall|i: int| 0 <= i < post.len() ==> #[trigger] post[i] < adj.len()
    &&& forall|x: usize|
        x < adj.len() ==> (#[trigger] marked[x as int] <==> (post.contains(x) || active.contains(x)))
    &&& forall|x: usize| #[trigger] post.contains(x) ==> !active.contains(x)
    &&& post_ordered(adj, post)
    &&& fin_closed(adj, post)
}

/// `post` extends `post0`, and what it adds was unmarked in `marked0` and is not `v`.
pub open spec fn extends(post: Seq<usize>, post0: Seq<usize>, marked0: Seq<bool>, v: usize) -> bool {
    &&& post.len() >= post0.len()
    &&& post.subrange(0, post0.len() as int) == post0
    &&& forall|k: int| post0.len() <= k < post.len() ==> !marked0[#[trigger] post[k] as int]
    &&& !post.contains(v)
}

proof fn lemma_start(
    a: Seq<Seq<usize>>,
    m0: Seq<bool>,
    e0: Seq<Option<usize>>,
    d: Seq<nat>,
    post0: Seq<usize>,
    active: Seq<usize>,
    v: usize,
)
    requires
        well_formed(a),
        a.len() <= usize::MAX,
        m0.len() == a.len(),
        e0.len() == a.len(),
        d.len() == a.len(),
        v < a.len(),
        !m0[v as int],
        forest(a, m0, e0, d),
        prepared(a, m0, e0, d, v),
        closed_except(a, m0, active),
        finish_inv(a, m0, post0, active),
        active.len() == 0 || (is_walk(a, active) && has_arc(a, active.last(), v)),
    ensures
        forest(a, m0.update(v as int, true), e0, d),
        closed_except(a, m0.update(v as int, true), active.push(v)),
        finish_inv(a, m0.update(v as int, true), post0, active.push(v)),
        is_walk(a, active.push(v)),
        forall|x: usize| #[trigger] active.push(v).contains(x) <==> (active.contains(x) || x == v),
        extends(post0, post0, m0, v),
        num_marked(m0.update(v as int, true)) == num_marked(m0) + 1,
        num_marked(m0.update(v as int, true)) <= a.len(),
        num_marked(m0) <= a.len(),
        reachable(a, v, v),
        !active.contains(v),
{
    let stk = active.push(v);
    let m1 = m0.update(v as int, true);
    lemma_num_marked_bound(m0);
    lemma_num_marked_set(m0, v as int);
    lemma_num_marked_bound(m1);
    lemma_reachable_self(a, v);
    assert forall|i: int| #![trigger stk[i]] 0 <= i < stk.len() - 1 implies has_arc(a, stk[i], stk[i + 1]) by {
        if i < active.len() - 1 {
            assert(stk[i] == active[i] && stk[i + 1] == active[i + 1]);
        }
    }
    assert forall|i: int| 0 <= i < stk.len() implies #[trigger] stk[i] < a.len() by {
        if i < active.len() {
            assert(stk[i] == active[i]);
        }
    }
    assert(is_walk(a, stk));
    assert forall|x: usize| #[trigger] stk.contains(x) <==> (active.contains(x) || x == v) by {
        if active.contains(x) {
            let k = choose|k: int| 0 <= k < active.len() && active[k] == x;
            assert(stk[k] == x);
        }
        if stk.contains(x) && x != v {
            let k = choose|k: int| 0 <= k < stk.len() && stk[k] == x;
            assert(active[k] == x);
        }
        if x == v {
            assert(stk[stk.len() - 1] == x);
        }
    }
    reveal(finish_inv);
    reveal(forest);
    reveal(closed_except);
    assert(!post0.contains(v)) by {
        if post0.contains(v) {
            assert(m0[v as int]);
        }
    }
    assert(!active.contains(v)) by {
        if active.contains(v) {
            assert(m0[v as int]);
        }
    }
    assert forall|x: usize| #[trigger] post0.contains(x) implies !stk.contains(x) by {
        assert(!active.contains(x));
    }
    assert(post0.subrange(0, post0.len() as int) =~= post0);
    assert forall|v2: usize, j: int|
        v2 < a.len() && m1[v2 as int] && !stk.contains(v2) && 0 <= j < a[v2 as int].len() implies m1[
        #[trigger] a[v2 as int][j] as int] by {
        assert(m0[a[v2 as int][j] as int]);
    }
    assert forall|u: usize| u < a.len() && #[trigger] m1[u as int] implies {
        &&& d[u as int] < num_marked(m1)
        &&& match e0[u as int] {
            None => d[u as int] == 0,
            Some(p) => p < a.len() && m1[p as int] && has_arc(a, p, u) && d[u as int] == d[p as int] + 1,
        }
    } by {
        if u != v {
            assert(m0[u as int]);
        }
    }
}

proof fn lemma_before_child(
    a: Seq<Seq<usize>>,
    m: Seq<bool>,
    e: Seq<Option<usize>>,
    d: Seq<nat>,
    v: usize,
    w: usize,
)
    requires
        m.len() == a.len(),
        e.len() == a.len(),
        d.len() == a.len(),
        v < a.len(),
        w < a.len(),
        m[v as int],
        !m[w as int],
        has_arc(a, v, w),
        forest(a, m, e, d),
    ensures
        forest(a, m, e.update(w as int, Some(v)), d.update(w as int, d[v as int] + 1)),
        prepared(a, m, e.update(w as int, Some(v)), d.update(w as int, d[v as int] + 1), w),
{
    reveal(forest);
    assert(m[v as int]);
}

/// What a finished child visit leaves behind still extends the start of the parent's visit.
proof fn lemma_extends_chain(
    a: Seq<Seq<usize>>,
    m2: Seq<bool>,
    stk: Seq<usize>,
    post0: Seq<usize>,
    post1: Seq<usize>,
    post2: Seq<usize>,
    m0: Seq<bool>,
    m1: Seq<bool>,
    v: usize,
)
    requires
        extends(post1, post0, m0, v),
        post2.len() >= post1.len(),
        post2.subrange(0, post1.len() as int) == post1,
        forall|k: int| post1.len() <= k < post2.len() ==> !m1[#[trigger] post2[k] as int],
        m1[v as int],
        m0.len() == a.len(),
        m1.len() == a.len(),
        forall|x: usize| x < a.len() && #[trigger] m0[x as int] ==> m1[x as int],
        finish_inv(a, m2, post2, stk),
    ensures
        extends(post2, post0, m0, v),
{
    reveal(finish_inv);
    assert forall|k: int| post0.len() <= k < post2.len() implies !m0[#[trigger] post2[k] as int] by {
        if k < post1.len() {
            assert(post2[k] == post2.subrange(0, post1.len() as int)[k]);
        } else {
            assert(!m1[post2[k] as int]);
        }
    }
    assert(!post2.contains(v)) by {
        if post2.contains(v) {
            let k = choose|k: int| 0 <= k < post2.len() && post2[k] == v;
            if k < post1.len() {
                assert(post2[k] == post2.subrange(0, post1.len() as int)[k]);
            }
        }
    }
    assert(post2.subrange(0, post0.len() as int) =~= post0) by {
        assert forall|k: int| 0 <= k < post0.len() implies post2[k] == post0[k] by {
            assert(post2[k] == post2.subrange(0, post1.len() as int)[k]);
            assert(post1[k] == post1.subrange(0, post0.len() as int)[k]);
        }
    }
}

proof fn lemma_finish(
    a: Seq<Seq<usize>>,
    m: Seq<bool>,
    post: Seq<usize>,
    post0: Seq<usize>,
    m0: Seq<bool>,
    active: Seq<usize>,
    v: usize,
)
    requires
        well_formed(a),
        m.len() == a.len(),
        v < a.len(),
        m[v as int],
        forall|j: int| 0 <= j < a[v as int].len() ==> m[#[trigger] a[v as int][j] as int],
        closed_except(a, m, active.push(v)),
        finish_inv(a, m, post, active.push(v)),
        is_walk(a, active.push(v)),
        forall|x: usize| #[trigger] active.push(v).contains(x) <==> (active.contains(x) || x == v),
        extends(post, post0, m0, v),
        !m0[v as int],
        !active.contains(v),
    ensures
        closed_except(a, m, active),
        finish_inv(a, m, post.push(v), active),
        post.push(v).len() >= post0.len(),
        post.push(v).subrange(0, post0.len() as int) == post0,
        forall|k: int| post0.len() <= k < post.push(v).len() ==> !m0[#[trigger] post.push(v)[k] as int],
{
    let stk = active.push(v);
    let p = post.push(v);
    reveal(finish_inv);
    assert(closed_except(a, m, active)) by {
        reveal(closed_except);
        assert forall|x: usize, j: int|
            x < a.len() && m[x as int] && !active.contains(x) && 0 <= j < a[x as int].len() implies m[
            #[trigger] a[x as int][j] as int] by {
            if x != v {
                assert(!stk.contains(x));
            }
        }
    }
    assert(p.subrange(0, post.len() as int) =~= post);
    assert forall|i: int, w: usize|
        0 <= i < p.len() && #[trigger] has_arc(a, p[i], w) implies (exists|j: int| 0 <= j < i && p[j] == w)
        || reachable(a, w, p[i]) by {
        if i < post.len() {
            assert(p[i] == post[i]);
            if exists|j: int| 0 <= j < i && post[j] == w {
                let j = choose|j: int| 0 <= j < i && post[j] == w;
                assert(p[j] == w);
            }
        } else {
            let j = choose|j: int| 0 <= j < a[v as int].len() && a[v as int][j] == w;
            assert(m[a[v as int][j] as int]);
            assert(w < a.len());
            if post.contains(w) {
                let k = choose|k: int| 0 <= k < post.len() && post[k] == w;
                assert(p[k] == w);
            } else {
                assert(stk.contains(w));
                let k = choose|k: int| 0 <= k < stk.len() && stk[k] == w;
                lemma_walk_suffix(a, stk, k);
            }
        }
    }
    assert forall|x: usize| x < a.len() implies (#[trigger] m[x as int] <==> (p.contains(x) || active.contains(x))) by {
        if post.contains(x) {
            let k = choose|k: int| 0 <= k < post.len() && post[k] == x;
            assert(p[k] == x);
        }
        if p.contains(x) && x != v {
            let k = choose|k: int| 0 <= k < p.len() && p[k] == x;
            assert(post[k] == x);
        }
        if x == v {
            assert(p[p.len() - 1] == x);
        }
    }
    assert forall|i: int| 0 <= i < p.len() implies #[trigger] p[i] < a.len() by {
        if i < post.len() {
            assert(p[i] == post[i]);
        }
    }
    assert(p.subrange(0, post0.len() as int) =~= post0) by {
        assert forall|k: int| 0 <= k < post0.len() implies p[k] == post0[k] by {
            assert(post[k] == post.subrange(0, post0.len() as int)[k]);
        }
    }
    assert forall|k: int| post0.len() <= k < p.len() implies !m0[#[trigger] p[k] as int] by {
        if k < post.len() {
            assert(p[k] == post[k]);
        }
    }
    assert(p.no_duplicates()) by {
        assert forall|i: int, j: int| 0 <= i < p.len() && 0 <= j < p.len() && i != j implies p[i] != p[j] by {
            if i < post.len() && j < post.len() {
                assert(p[i] == post[i] && p[j] == post[j]);
            } else if i < post.len() {
                assert(p[i] == post[i]);
            } else if j < post.len() {
                assert(p[j] == post[j]);
            }
        }
    }
    assert forall|x: usize| #[trigger] p.contains(x) implies !active.contains(x) by {
        if x != v {
            let k = choose|k: int| 0 <= k < p.len() && p[k] == x;
            assert(post[k] == x);
            assert(post.contains(x));
            assert(!stk.contains(x));
        }
    }
    assert forall|i: int, y: usize|
        0 <= i < p.len() && #[trigger] reachable(a, p[i], y) implies (exists|j: int| 0 <= j <= i && p[j] == y) || (exists|
        c: usize,
    | reachable(a, c, p[i]) && reachable(a, p[i], c) && !p.subrange(0, i + 1).contains(c)) by {
        if i < post.len() {
            assert(p[i] == post[i]);
            assert(p.subrange(0, i + 1) =~= post.subrange(0, i + 1));
            if exists|j: int| 0 <= j <= i && post[j] == y {
                let j = choose|j: int| 0 <= j <= i && post[j] == y;
                assert(p[j] == y);
            }
        } else {
            let w = choose|w: Seq<usize>| is_walk(a, w) && w[0] == v && w.last() == y;
            lemma_fin_walk(a, m, p, active, v, w, w.len() - 1);
            assert(p.subrange(0, i + 1) =~= p);
            if exists|t: int| 0 <= t < w.len() && active.contains(w[t]) {
                let t = choose|t: int| 0 <= t < w.len() && active.contains(w[t]);
                let c = w[t];
                let k = choose|k: int| 0 <= k < active.len() && active[k] == c;
                assert(stk[k] == c);
                lemma_walk_suffix(a, stk, k);
                lemma_walk_prefix(a, w, t);
                assert(!p.contains(c));
            } else {
                assert(p.contains(y));
                let j = choose|j: int| 0 <= j < p.len() && p[j] == y;
            }
        }
    }
}

/// Along a walk from a just-finished `v`, the vertices are finished until one is active.
proof fn lemma_fin_walk(a: Seq<Seq<usize>>, m: Seq<bool>, p: Seq<usize>, active: Seq<usize>, v: usize, w: Seq<usize>, k: int)
    requires
        m.len() == a.len(),
        closed_except(a, m, active),
        forall|x: usize| x < a.len() ==> (#[trigger] m[x as int] <==> (p.contains(x) || active.contains(x))),
        forall|x: usize| #[trigger] p.contains(x) ==> !active.contains(x),
        p.contains(v),
        is_walk(a, w),
        w[0] == v,
        0 <= k < w.len(),
    ensures
        (forall|t: int| 0 <= t <= k ==> p.contains(#[trigger] w[t])) || (exists|t: int| 0 <= t <= k && active.contains(#[trigger] w[t])),
    decreases k,
{
    if k > 0 {
        lemma_fin_walk(a, m, p, active, v, w, k - 1);
        if forall|t: int| 0 <= t <= k - 1 ==> p.contains(#[trigger] w[t]) {
            let u = w[k - 1];
            assert(p.contains(u));
            assert(m[u as int]);
            assert(has_arc(a, u, w[k]));
            let j = choose|j: int| 0 <= j < a[u as int].len() && a[u as int][j] == w[k];
            reveal(closed_except);
            assert(m[a[u as int][j] as int]);
            if !p.contains(w[k]) {
                assert(active.contains(w[k]));
            }
        }
    }
}

/// Marks every vertex reachable from `v` through unmarked vertices, sets their parents and
/// depths, and appends them to `post` in the order they finish.
pub(crate) fn dfs_visit(
    adj: &Vec<Vec<usize>>,
    marked: &mut Vec<bool>,
    edge_to: &mut Vec<Option<usize>>,
    post: &mut Vec<usize>,
    v: usize,
    Ghost(active): Ghost<Seq<usize>>,
    Ghost(depth): Ghost<Seq<nat>>,
) -> (depth_out: Ghost<Seq<nat>>)
    requires
        well_formed(lists_view(adj@)),
        old(marked)@.len() == adj@.len(),
        old(edge_to)@.len() == adj@.len(),
        depth.len() == adj@.len(),
        v < adj@.len(),
        !old(marked)@[v as int],
        forest(lists_view(adj@), old(marked)@, old(edge_to)@, depth),
        prepared(lists_view(adj@), old(marked)@, old(edge_to)@, depth, v),
        closed_except(lists_view(adj@), old(marked)@, active),
        finish_inv(lists_view(adj@), old(marked)@, old(post)@, active),
        active.len() == 0 || (is_walk(lists_view(adj@), active) && has_arc(
            lists_view(adj@),
            active.last(),
            v,
        )),
    ensures
        final(marked)@.len() == adj@.len(),
        final(edge_to)@.len() == adj@.len(),
        depth_out@.len() == adj@.len(),
        forall|x: usize|
            x < adj@.len() && #[trigger] old(marked)@[x as int] ==> final(marked)@[x as int]
                && final(edge_to)@[x as int] == old(edge_to)@[x as int] && depth_out@[x as int]
                == depth[x as int],
        final(marked)@[v as int],
        final(edge_to)@[v as int] == old(edge_to)@[v as int],
        depth_out@[v as int] == depth[v as int],
        forall|x: usize|
            x < adj@.len() && #[trigger] final(marked)@[x as int] && !old(marked)@[x as int] ==> reachable(
                lists_view(adj@),
                v,
                x,
            ) && (x != v ==> final(edge_to)@[x as int] is Some),
        num_marked(final(marked)@) > num_marked(old(marked)@),
        forest(lists_view(adj@), final(marked)@, final(edge_to)@, depth_out@),
        closed_except(lists_view(adj@), final(marked)@, active),
        finish_inv(lists_view(adj@), final(marked)@, final(post)@, active),
        final(post)@.len() >= old(post)@.len(),
        final(post)@.subrange(0, old(post)@.len() as int) == old(post)@,
        forall|i: int|
            old(post)@.len() <= i < final(post)@.len() ==> !old(marked)@[#[trigger] final(post)@[i] as int],
    decreases (old(marked)@.len() - num_marked(old(marked)@)) as nat,
{
    let num_vertices = adj.len();
    let ghost a = lists_view(adj@);
    let ghost n = a.len();
    let ghost marked0 = marked@;
    let ghost edge0 = edge_to@;
    let ghost post0 = post@;
    let ghost stk = active.push(v);
    proof {
        lemma_start(a, marked0, edge0, depth, post0, active, v);
    }
    marked.set(v, true);
    let ghost mut depth_now = depth;
    let list = &adj[v];
    let mut i: usize = 0;
    #[verifier::loop_isolation(false)]
    while i < list.len()
        invariant
            a == lists_view(adj@),
            n == a.len(),
            n == num_vertices,
            well_formed(a),
            v < n,
            list@ == a[v as int],
            i <= list@.len(),
            marked@.len() == n,
            edge_to@.len() == n,
            depth_now.len() == n,
            marked0.len() == n,
            edge0.len() == n,
            depth.len() == n,
            marked@[v as int],
            !marked0[v as int],
            forall|j: int| 0 <= j < i ==> marked@[#[trigger] list@[j] as int],
            forall|x: usize|
                x < n && #[trigger] marked0[x as int] ==> marked@[x as int] && edge_to@[x as int]
                    == edge0[x as int] && depth_now[x as int] == depth[x as int],
            edge_to@[v as int] == edge0[v as int],
            depth_now[v as int] == depth[v as int],
            forall|x: usize|
                x < n && #[trigger] marked@[x as int] && !marked0[x as int] ==> reachable(a, v, x) && (x
                    != v ==> edge_to@[x as int] is Some),
            num_marked(marked@) > num_marked(marked0),
            num_marked(marked@) <= n,
            forest(a, marked@, edge_to@, depth_now),
            closed_except(a, marked@, stk),
            finish_inv(a, marked@, post@, stk),
            is_walk(a, stk),
            stk == active.push(v),
            forall|x: usize| #[trigger] stk.contains(x) <==> (active.contains(x) || x == v),
            extends(post@, post0, marked0, v),
        decreases list@.len() - i,
    {
        let w = list[i];
        proof {
            assert(a[v as int][i as int] == w);
            assert(w < n);
        }
        if !marked[w] {
            let ghost before = marked@;
            let ghost edge1 = edge_to@;
            let ghost post1 = post@;
            proof {
                assert(has_arc(a, v, w));
                lemma_before_child(a, marked@, edge_to@, depth_now, v, w);
            }
            edge_to.set(w, Some(v));
            let ghost d = depth_now.update(w as int, depth_now[v as int] + 1);
            let Ghost(d2) = dfs_visit(adj, marked, edge_to, post, w, Ghost(stk), Ghost(d));
            proof {
                assert forall|k: int| 0 <= k < before.len() && before[k] implies marked@[k] by {
                    assert(before[(k as usize) as int]);
                }
                lemma_num_marked_mono(before, marked@);
                lemma_num_marked_bound(marked@);
                assert forall|x: usize|
                    x < n && #[trigger] marked@[x as int] && !marked0[x as int] implies reachable(a, v, x) && (x
                        != v ==> edge_to@[x as int] is Some) by {
                    if !before[x as int] {
                        lemma_reachable_prepend(a, v, w, x);
                    }
                }
                lemma_extends_chain(a, marked@, stk, post0, post1, post@, marked0, before, v);
                depth_now = d2;
            }
        }
        i += 1;
    }
    proof {
        assert forall|j: int| 0 <= j < a[v as int].len() implies marked@[#[trigger] a[v as int][j] as int] by {
            assert(list@[j] == a[v as int][j]);
        }
        lemma_finish(a, marked@, post@, post0, marked0, active, v);
    }
    post.push(v);
    Ghost(depth_now)
}

/// A search tree rooted at `s`: a forest over the marked vertices whose only root is `s`.
pub open spec fn rooted_tree(
    adj: Seq<Seq<usize>>,
    marked: Seq<bool>,
    edge_to: Seq<Option<usize>>,
    depth: Seq<nat>,
    s: usize,
) -> bool {
    &&& marked.len() == adj.len()
    &&& edge_to.len() == adj.len()
    &&& depth.len() == adj.len()
    &&& s < adj.len()
    &&& forest(adj, marked, edge_to, depth)
    &&& marked[s as int]
    &&& edge_to[s as int] is None
    &&& forall|u: usize| u < adj.len() && #[trigger] marked[u as int] && edge_to[u as int] is None ==> u == s
}

/// Depth-first search from `s`: marks exactly the vertices reachable from `s` and returns
/// the search tree.
pub(crate) fn search_from(adj: &Vec<Vec<usize>>, s: usize) -> (r: (Vec<bool>, Vec<Option<usize>>, Ghost<Seq<nat>>))
    requires
        well_formed(lists_view(adj@)),
        s < adj@.len(),
    ensures
        rooted_tree(lists_view(adj@), r.0@, r.1@, r.2@, s),
        forall|v: usize| v < adj@.len() ==> (#[trigger] r.0@[v as int] <==> reachable(lists_view(adj@), s, v)),
{
    let n = adj.len();
    let ghost a = lists_view(adj@);
    let mut marked: Vec<bool> = Vec::new();
    let mut edge_to: Vec<Option<usize>> = Vec::new();
    let mut i: usize = 0;
    while i < n
        invariant
            i <= n,
            n == adj@.len(),
            marked@ == Seq::new(i as nat, |k: int| false),
            edge_to@ == Seq::new(i as nat, |k: int| None::<usize>),
        decreases n - i,
    {
        marked.push(false);
        edge_to.push(None);
        i += 1;
        assert(marked@ =~= Seq::new(i as nat, |k: int| false));
        assert(edge_to@ =~= Seq::new(i as nat, |k: int| None::<usize>));
    }
    let mut post: Vec<usize> = Vec::new();
    let ghost depth = Seq::new(n as nat, |k: int| 0nat);
    proof {
        reveal(forest);
        reveal(closed_except);
        reveal(finish_inv);
    }
    let Ghost(d) = dfs_visit(adj, &mut marked, &mut edge_to, &mut post, s, Ghost(Seq::empty()), Ghost(depth));
    proof {
        assert forall|v: usize| v < n implies (#[trigger] marked@[v as int] <==> reachable(a, s, v)) by {
            if reachable(a, s, v) {
                lemma_closed_holds_reachable(a, marked@, s, v);
            }
        }
    }
    (marked, edge_to, Ghost(d))
}

/// The path from the root `s` of a search tree down to the marked vertex `v`.
pub(crate) fn tree_path(
    edge_to: &Vec<Option<usize>>,
    v: usize,
    Ghost(adj): Ghost<Seq<Seq<usize>>>,
    Ghost(marked): Ghost<Seq<bool>>,
    Ghost(depth): Ghost<Seq<nat>>,
    Ghost(s): Ghost<usize>,
) -> (p: Vec<usize>)
    requires
        rooted_tree(adj, marked, edge_to@, depth, s),
        v < adj.len(),
        marked[v as int],
    ensures
        is_walk(adj, p@),
        p@[0] == s,
        p@.last() == v,
        p@.len() == depth[v as int] + 1,
        p@.len() <= adj.len(),
{
    reveal(forest);
    let mut back: Vec<usize> = Vec::new();
    back.push(v);
    let mut x = v;
    while edge_to[x].is_some()
        invariant
            rooted_tree(adj, marked, edge_to@, depth, s),
            forest(adj, marked, edge_to@, depth),
            x < adj.len(),
            marked[x as int],
            back@.len() >= 1,
            back@[0] == v,
            back@.last() == x,
            depth[x as int] <= depth[v as int],
            back@.len() == depth[v as int] - depth[x as int] + 1,
            forall|i: int| 0 <= i < back@.len() ==> #[trigger] back@[i] < adj.len(),
            forall|i: int| #![trigger back@[i]] 0 <= i < back@.len() - 1 ==> has_arc(adj, back@[i + 1], back@[i]),
        decreases depth[x as int],
    {
        proof {
            reveal(forest);
        }
        let from = edge_to[x].unwrap();
        back.push(from);
        x = from;
    }
    proof {
        lemma_num_marked_bound(marked);
    }
    let len = back.len();
    let mut p: Vec<usize> = Vec::new();
    let mut k: usize = 0;
    while k < len
        invariant
            len == back@.len(),
            k <= len,
            p@.len() == k,
            forall|i: int| 0 <= i < k ==> #[trigger] p@[i] == back@[len - 1 - i],
        decreases len - k,
    {
        p.push(back[len - 1 - k]);
        k += 1;
    }
    assert forall|i: int| #![trigger p@[i]] 0 <= i < p@.len() - 1 implies has_arc(adj, p@[i], p@[i + 1]) by {
        assert(p@[i] == back@[len - 1 - i] && p@[i + 1] == back@[len - 1 - (i + 1)]);
    }
    assert forall|i: int| 0 <= i < p@.len() implies #[trigger] p@[i] < adj.len() by {
        assert(p@[i] == back@[len - 1 - i]);
    }
    p
}

/// Along a walk from `s` through a marked set in which each arc raises the depth by at most
/// one, the depth of the `k`-th vertex is at most `k`.
proof fn lemma_depth_along_walk(
    adj: Seq<Seq<usize>>,
    marked: Seq<bool>,
    depth: Seq<nat>,
    p: Seq<usize>,
    k: int,
)
    requires
        marked.len() == adj.len(),
        depth.len() == adj.len(),
        is_walk(adj, p),
        marked[p[0] as int],
        depth[p[0] as int] == 0,
        forall|u: usize, j: int|
            u < adj.len() && marked[u as int] && 0 <= j < adj[u as int].len() ==> marked[#[trigger] adj[u as int][j] as int]
                && depth[adj[u as int][j] as int] <= depth[u as int] + 1,
        0 <= k < p.len(),
    ensures
        marked[p[k] as int],
        depth[p[k] as int] <= k,
    decreases k,
{
    if k > 0 {
        lemma_depth_along_walk(adj, marked, depth, p, k - 1);
        let u = p[k - 1];
        assert(has_arc(adj, u, p[k]));
        let j = choose|j: int| 0 <= j < adj[u as int].len() && adj[u as int][j] == p[k];
        assert(marked[adj[u as int][j] as int]);
    }
}

/// Breadth-first search from `s`: marks exactly the vertices reachable from `s` and returns
/// a search tree in which each vertex sits at its distance from `s`.
pub(crate) fn bfs_from(adj: &Vec<Vec<usize>>, s: usize) -> (r: (Vec<bool>, Vec<Option<usize>>, Ghost<Seq<nat>>))
    requires
        well_formed(lists_view(adj@)),
        s < adj@.len(),
    ensures
        rooted_tree(lists_view(adj@), r.0@, r.1@, r.2@, s),
        forall|v: usize| v < adj@.len() ==> (#[trigger] r.0@[v as int] <==> reachable(lists_view(adj@), s, v)),
        forall|v: usize, p: Seq<usize>|
            v < adj@.len() && #[trigger] r.0@[v as int] && is_walk(lists_view(adj@), p) && p[0] == s && #[trigger] p.last() == v
                ==> r.2@[v as int] + 1 <= p.len(),
{
    let n = adj.len();
    let ghost a = lists_view(adj@);
    let mut marked: Vec<bool> = Vec::new();
    let mut edge_to: Vec<Option<usize>> = Vec::new();
    let mut i: usize = 0;
    while i < n
        invariant
            i <= n,
            n == adj@.len(),
            marked@ == Seq::new(i as nat, |k: int| false),
            edge_to@ == Seq::new(i as nat, |k: int| None::<usize>),
        decreases n - i,
    {
        marked.push(false);
        edge_to.push(None);
        i += 1;
        assert(marked@ =~= Seq::new(i as nat, |k: int| false));
        assert(edge_to@ =~= Seq::new(i as nat, |k: int| None::<usize>));
    }
    let ghost mut depth = Seq::new(n as nat, |k: int| 0nat);
    proof {
        lemma_num_marked_set(marked@, s as int);
        lemma_reachable_self(a, s);
        lemma_num_marked_bound(marked@.update(s as int, true));
        assert(num_marked(marked@) == 0) by {
            lemma_num_marked_mono(marked@, Seq::new(n as nat, |k: int| false));
            assert(num_marked(Seq::new(n as nat, |k: int| false)) == 0) by {
                lemma_all_false(Seq::new(n as nat, |k: int| false));
            }
        }
    }
    marked.set(s, true);
    let mut queue: Vec<usize> = Vec::new();
    queue.push(s);
    let mut head: usize = 0;
    proof {
        reveal(forest);
        assert forall|x: usize| x < n implies (#[trigger] marked@[x as int] <==> queue@.contains(x)) by {
            if x == s {
                assert(queue@[0] == s);
            }
        }
    }
    while head < queue.len()
        invariant
            a == lists_view(adj@),
            n == a.len(),
            well_formed(a),
            s < n,
            marked@.len() == n,
            edge_to@.len() == n,
            depth.len() == n,
            head <= queue@.len(),
            queue@.len() == num_marked(marked@),
            num_marked(marked@) <= n,
            queue@[0] == s,
            forall|k: int| 0 <= k < queue@.len() ==> #[trigger] queue@[k] < n,
            forall|x: usize| x < n ==> (#[trigger] marked@[x as int] <==> queue@.contains(x)),
            forall|x: usize| x < n && #[trigger] marked@[x as int] ==> reachable(a, s, x),
            forest(a, marked@, edge_to@, depth),
            marked@[s as int],
            edge_to@[s as int] is None,
            depth[s as int] == 0,
            forall|u: usize| u < n && #[trigger] marked@[u as int] && edge_to@[u as int] is None ==> u == s,
            forall|i: int, j: int| #![trigger queue@[i], queue@[j]] 0 <= i < j < queue@.len() ==> depth[queue@[i] as int] <= depth[queue@[j] as int],
            head < queue@.len() ==> forall|j: int| 0 <= j < queue@.len() ==> depth[#[trigger] queue@[j] as int] <= depth[queue@[head as int] as int] + 1,
            forall|k: int, j: int|
                0 <= k < head && 0 <= j < a[queue@[k] as int].len() ==> marked@[#[trigger] a[queue@[k] as int][j] as int]
                    && depth[a[queue@[k] as int][j] as int] <= depth[queue@[k] as int] + 1,
        decreases n - head,
    {
        let v = queue[head];
        let list = &adj[v];
        let mut i: usize = 0;
        let ghost q0 = queue@;
        while i < list.len()
            invariant
                a == lists_view(adj@),
                n == a.len(),
                well_formed(a),
                s < n,
                v < n,
                v == queue@[head as int],
                list@ == a[v as int],
                i <= list@.len(),
                marked@.len() == n,
                edge_to@.len() == n,
                depth.len() == n,
                head < q0.len(),
                queue@.len() >= q0.len(),
                queue@.subrange(0, q0.len() as int) == q0,
                queue@.len() == num_marked(marked@),
                num_marked(marked@) <= n,
                queue@[0] == s,
                forall|k: int| 0 <= k < queue@.len() ==> #[trigger] queue@[k] < n,
                forall|x: usize| x < n ==> (#[trigger] marked@[x as int] <==> queue@.contains(x)),
                forall|x: usize| x < n && #[trigger] marked@[x as int] ==> reachable(a, s, x),
                forest(a, marked@, edge_to@, depth),
                marked@[s as int],
                marked@[v as int],
                edge_to@[s as int] is None,
                depth[s as int] == 0,
                forall|u: usize| u < n && #[trigger] marked@[u as int] && edge_to@[u as int] is None ==> u == s,
                forall|i: int, j: int| #![trigger queue@[i], queue@[j]] 0 <= i < j < queue@.len() ==> depth[queue@[i] as int] <= depth[queue@[j] as int],
                forall|j: int| 0 <= j < queue@.len() ==> depth[#[trigger] queue@[j] as int] <= depth[v as int] + 1,
                forall|k: int, j: int|
                    0 <= k < head && 0 <= j < a[queue@[k] as int].len() ==> marked@[#[trigger] a[queue@[k] as int][j] as int]
                        && depth[a[queue@[k] as int][j] as int] <= depth[queue@[k] as int] + 1,
                forall|j: int| 0 <= j < i ==> marked@[#[trigger] list@[j] as int] && depth[list@[j] as int] <= depth[v as int] + 1,
            decreases list@.len() - i,
        {
            let w = list[i];
            proof {
                assert(a[v as int][i as int] == w);
                assert(has_arc(a, v, w));
                lemma_arc_in_range(a, v, w);
            }
            if !marked[w] {
                let ghost m0 = marked@;
                let ghost qb = queue@;
                proof {
                    reveal(forest);
                    lemma_num_marked_set(marked@, w as int);
                    lemma_num_marked_bound(marked@.update(w as int, true));
                    lemma_reachable_append(a, s, v, w);
                }
                marked.set(w, true);
                edge_to.set(w, Some(v));
                proof {
                    depth = depth.update(w as int, depth[v as int] + 1);
                }
                queue.push(w);
                proof {
                    reveal(forest);
                    assert(queue@.subrange(0, q0.len() as int) =~= q0) by {
                        assert forall|k: int| 0 <= k < q0.len() implies queue@[k] == q0[k] by {
                            assert(qb[k] == qb.subrange(0, q0.len() as int)[k]);
                        }
                    }
                    assert forall|x: usize| x < n implies (#[trigger] marked@[x as int] <==> queue@.contains(x)) by {
                        if qb.contains(x) {
                            let k = choose|k: int| 0 <= k < qb.len() && qb[k] == x;
                            assert(queue@[k] == x);
                        }
                        if queue@.contains(x) && x != w {
                            let k = choose|k: int| 0 <= k < queue@.len() && queue@[k] == x;
                            assert(qb[k] == x);
                        }
                        if x == w {
                            assert(queue@[queue@.len() - 1] == x);
                        }
                    }
                    assert forall|k: int, j: int|
                        0 <= k < head && 0 <= j < a[queue@[k] as int].len() implies marked@[#[trigger] a[queue@[k] as int][j] as int]
                            && depth[a[queue@[k] as int][j] as int] <= depth[queue@[k] as int] + 1 by {
                        assert(queue@[k] == qb[k]);
                        assert(m0[a[qb[k] as int][j] as int]);
                        assert(qb[k] != w);
                        assert(a[qb[k] as int][j] != w);
                    }
                    assert forall|i: int, j: int| #![trigger queue@[i], queue@[j]] 0 <= i < j < queue@.len() implies depth[queue@[i] as int] <= depth[queue@[j] as int] by {
                        assert(queue@[i] != w || i == queue@.len() - 1) by {
                            if i < qb.len() {
                                assert(queue@[i] == qb[i]);
                                assert(m0[qb[i] as int]);
                            }
                        }
                        if j < qb.len() {
                            assert(queue@[j] == qb[j]);
                            assert(queue@[i] == qb[i]);
                            assert(qb[j] != w) by { assert(m0[qb[j] as int]); }
                            assert(qb[i] != w) by { assert(m0[qb[i] as int]); }
                        } else {
                            assert(queue@[i] == qb[i]);
                            assert(qb[i] != w) by { assert(m0[qb[i] as int]); }
                        }
                    }
                    assert forall|j: int| 0 <= j < queue@.len() implies depth[#[trigger] queue@[j] as int] <= depth[v as int] + 1 by {
                        if j < qb.len() {
                            assert(queue@[j] == qb[j]);
                            assert(qb[j] != w) by { assert(m0[qb[j] as int]); }
                        }
                    }
                    assert forall|j: int| 0 <= j < i + 1 implies marked@[#[trigger] list@[j] as int] && depth[list@[j] as int] <= depth[v as int] + 1 by {
                        if j < i {
                            assert(m0[list@[j] as int]);
                        }
                    }
                }
            } else {
                proof {
                    let k = choose|k: int| 0 <= k < queue@.len() && queue@[k] == w;
                    assert(depth[queue@[k] as int] <= depth[v as int] + 1);
                }
            }
            i += 1;
        }
        proof {
            assert forall|k: int, j: int|
                0 <= k < head + 1 && 0 <= j < a[queue@[k] as int].len() implies marked@[#[trigger] a[queue@[k] as int][j] as int]
                    && depth[a[queue@[k] as int][j] as int] <= depth[queue@[k] as int] + 1 by {
                if k == head {
                    assert(list@[j] == a[v as int][j]);
                }
            }
            lemma_num_marked_bound(marked@);
        }
        head += 1;
    }
    proof {
        reveal(forest);
        assert forall|u: usize, j: int|
            u < n && marked@[u as int] && 0 <= j < a[u as int].len() implies marked@[#[trigger] a[u as int][j] as int]
                && depth[a[u as int][j] as int] <= depth[u as int] + 1 by {
            let k = choose|k: int| 0 <= k < queue@.len() && queue@[k] == u;
            assert(a[queue@[k] as int][j] == a[u as int][j]);
        }
        assert(closed_except(a, marked@, Seq::empty())) by {
            reveal(closed_except);
        }
        assert forall|v: usize| v < n implies (#[trigger] marked@[v as int] <==> reachable(a, s, v)) by {
            if reachable(a, s, v) {
                lemma_closed_holds_reachable(a, marked@, s, v);
            }
        }
        assert forall|v: usize, p: Seq<usize>|
            v < n && #[trigger] marked@[v as int] && is_walk(a, p) && p[0] == s && #[trigger] p.last() == v
                implies depth[v as int] + 1 <= p.len() by {
            lemma_depth_along_walk(a, marked@, depth, p, p.len() - 1);
        }
    }
    (marked, edge_to, Ghost(depth))
}

/// The number of marked vertices.
pub(crate) fn count_marked(marked: &Vec<bool>) -> (r: usize)
    ensures
        r == num_marked(marked@),
{
    let mut count: usize = 0;
    let mut i: usize = 0;
    while i < marked.len()
        invariant
            i <= marked@.len(),
            count == num_marked(marked@.subrange(0, i as int)),
        decreases marked@.len() - i,
    {
        proof {
            assert(marked@.subrange(0, i + 1).drop_last() =~= marked@.subrange(0, i as int));
            lemma_num_marked_bound(marked@.subrange(0, i as int));
        }
        if marked[i] {
            count = count + 1;
        }
        i += 1;
    }
    assert(marked@.subrange(0, i as int) =~= marked@);
    count
}

} // verus!
