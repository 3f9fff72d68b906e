//! The table of vertex names that the symbol graphs share.
use vstd::prelude::*;

verus! {

/// The edge records as character sequences.
pub open spec fn records_view(edges: Seq<Vec<String>>) -> Seq<Seq<Seq<char>>> {
    edges.map_values(|r: Vec<String>| r@.map_values(|s: String| s@))
}

/// The names as character sequences.
pub open spec fn names_view(names: Seq<String>) -> Seq<Seq<char>> {
    names.map_values(|s: String| s@)
}

/// The labels of all records, record after record.
pub open spec fn flat(recs: Seq<Seq<Seq<char>>>) -> Seq<Seq<char>>
    decreases recs.len(),
{
    if recs.len() == 0 {
        Seq::empty()
    } else {
        flat(recs.drop_last()) + recs.last()
    }
}

/// The entries of `s`, each kept where it first appears.
pub open spec fn first_seen(s: Seq<Seq<char>>) -> Seq<Seq<char>>
    decreases s.len(),
{
    if s.len() == 0 {
        Seq::empty()
    } else if first_seen(s.drop_last()).contains(s.last()) {
        first_seen(s.drop_last())
    } else {
        first_seen(s.drop_last()).push(s.last())
    }
}

/// Some record holds the label `x`.
pub open spec fn mentions(recs: Seq<Seq<Seq<char>>>, x: Seq<char>) -> bool {
    exists|r: int, k: int| 0 <= r < recs.len() && 0 <= k < recs[r].len() && #[trigger] recs[r][k] == x
}

/// Some record has source `a` and lists `b` among its targets.
pub open spec fn lists_arc(recs: Seq<Seq<Seq<char>>>, a: Seq<char>, b: Seq<char>) -> bool {
    exists|r: int, k: int| 0 <= r < recs.len() && 1 <= k < recs[r].len() && recs[r][0] == a && #[trigger] recs[r][k] == b
}

/// Like `lists_arc`, over the records before `r` and the first `k` labels of record `r`.
pub open spec fn lists_arc_before(recs: Seq<Seq<Seq<char>>>, a: Seq<char>, b: Seq<char>, r: int, k: int) -> bool {
    exists|r2: int, k2: int|
        0 <= r2 <= r && r2 < recs.len() && 1 <= k2 < recs[r2].len() && (r2 < r || k2 < k) && recs[r2][0] == a
            && #[trigger] recs[r2][k2] == b
}

/// The number of targets over all records.
pub open spec fn arc_total(recs: Seq<Seq<Seq<char>>>) -> nat
    decreases recs.len(),
{
    if recs.len() == 0 {
        0
    } else {
        arc_total(recs.drop_last()) + if recs.last().len() > 0 {
            (recs.last().len() - 1) as nat
        } else {
            0nat
        }
    }
}

pub proof fn lemma_arc_total_prefix(recs: Seq<Seq<Seq<char>>>, r: int)
    requires
        0 <= r <= recs.len(),
    ensures
        arc_total(recs.subrange(0, r)) <= arc_total(recs),
        r < recs.len() ==> arc_total(recs.subrange(0, r + 1)) == arc_total(recs.subrange(0, r)) + if recs[r].len() > 0 {
            (recs[r].len() - 1) as nat
        } else {
            0nat
        },
    decreases recs.len() - r,
{
    if r < recs.len() {
        assert(recs.subrange(0, r + 1).drop_last() =~= recs.subrange(0, r));
        lemma_arc_total_prefix(recs, r + 1);
    } else {
        assert(recs.subrange(0, r) =~= recs);
    }
}

/// The position of `name` in `names`.
pub(crate) fn find(names: &Vec<String>, name: &String) -> (r: Option<usize>)
    ensures
        r matches Some(i) ==> i < names@.len() && names@[i as int]@ == name@,
        r is None ==> !names_view(names@).contains(name@),
{
    let mut i: usize = 0;
    while i < names.len()
        invariant
            i <= names@.len(),
            forall|j: int| 0 <= j < i ==> names@[j]@ != name@,
        decreases names@.len() - i,
    {
        if names[i] == *name {
            return Some(i);
        }
        i += 1;
    }
    proof {
        if names_view(names@).contains(name@) {
            let j = choose|j: int| 0 <= j < names@.len() && names_view(names@)[j] == name@;
        }
    }
    None
}

/// The distinct labels of the records, each once, in the order they first appear.
pub(crate) fn collect_names(edges: &Vec<Vec<String>>) -> (names: Vec<String>)
    ensures
        names_view(names@).no_duplicates(),
        forall|x: Seq<char>| #[trigger] names_view(names@).contains(x) <==> mentions(records_view(edges@), x),
        names_view(names@) == first_seen(flat(records_view(edges@))),
{
    let ghost recs = records_view(edges@);
    let mut names: Vec<String> = Vec::new();
    let mut r: usize = 0;
    while r < edges.len()
        invariant
            recs == records_view(edges@),
            r <= edges@.len(),
            names_view(names@).no_duplicates(),
            forall|x: Seq<char>|
                #[trigger] names_view(names@).contains(x) <==> exists|r2: int, k2: int|
                    0 <= r2 < r && 0 <= k2 < recs[r2].len() && #[trigger] recs[r2][k2] == x,
            names_view(names@) == first_seen(flat(recs.subrange(0, r as int))),
        decreases edges@.len() - r,
    {
        let record = &edges[r];
        let mut k: usize = 0;
        assert(flat(recs.subrange(0, r as int)) + recs[r as int].subrange(0, 0) =~= flat(recs.subrange(0, r as int)));
        while k < record.len()
            invariant
                recs == records_view(edges@),
                r < edges@.len(),
                record@ == edges@[r as int]@,
                k <= record@.len(),
                names_view(names@).no_duplicates(),
                forall|x: Seq<char>|
                    #[trigger] names_view(names@).contains(x) <==> exists|r2: int, k2: int|
                        0 <= r2 <= r && 0 <= k2 < recs[r2].len() && (r2 < r || k2 < k) && #[trigger] recs[r2][k2] == x,
                names_view(names@) == first_seen(flat(recs.subrange(0, r as int)) + recs[r as int].subrange(0, k as int)),
            decreases record@.len() - k,
        {
            let ghost before = names_view(names@);
            let ghost seen = flat(recs.subrange(0, r as int)) + recs[r as int].subrange(0, k as int);
            assert(recs[r as int][k as int] == record@[k as int]@);
            assert((flat(recs.subrange(0, r as int)) + recs[r as int].subrange(0, k + 1)) =~= seen.push(record@[k as int]@));
            assert(seen.push(record@[k as int]@).drop_last() =~= seen);
            let found = find(&names, &record[k]);
            if let Some(i) = found {
                assert(before[i as int] == record@[k as int]@);
            } else {
                names.push(record[k].clone());
                proof {
                    let now = names_view(names@);
                    assert(now =~= before.push(record@[k as int]@));
                    assert forall|x: Seq<char>| #[trigger] now.contains(x) <==> (before.contains(x) || x == record@[k as int]@) by {
                        if before.contains(x) {
                            let j = choose|j: int| 0 <= j < before.len() && before[j] == x;
                            assert(now[j] == x);
                        }
                        if now.contains(x) && x != record@[k as int]@ {
                            let j = choose|j: int| 0 <= j < now.len() && now[j] == x;
                            assert(before[j] == x);
                        }
                        if x == record@[k as int]@ {
                            assert(now[now.len() - 1] == x);
                        }
                    }
                }
            }
            proof {
                let now = names_view(names@);
                assert forall|x: Seq<char>|
                    #[trigger] now.contains(x) <==> exists|r2: int, k2: int|
                        0 <= r2 <= r && 0 <= k2 < recs[r2].len() && (r2 < r || k2 < k + 1) && #[trigger] recs[r2][k2] == x by {
                    if x == recs[r as int][k as int] {
                        assert(now.contains(x));
                    }
                    if now.contains(x) && !before.contains(x) {
                        assert(x == recs[r as int][k as int]);
                    }
                }
            }
            k += 1;
        }
        proof {
            assert(recs.subrange(0, r + 1).drop_last() =~= recs.subrange(0, r as int));
            assert(recs[r as int].subrange(0, k as int) =~= recs[r as int]);
        }
        r += 1;
    }
    proof {
        assert(recs.subrange(0, r as int) =~= recs);
    }
    names
}

} // verus!
