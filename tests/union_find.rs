use sedgewick::union_find::{union_find, QuickFind, UnionFind};

const TINY_UF: [(usize, usize); 11] =
    [(4, 3), (3, 8), (6, 5), (9, 4), (2, 1), (8, 9), (5, 0), (7, 2), (6, 1), (1, 0), (6, 7)];

#[test]
fn quick_find_tiny() {
    let mut qf = QuickFind::new(10);
    assert_eq!(union_find(&mut qf, &TINY_UF), 2);
    assert_eq!(qf.count(), 2);
    assert_eq!(qf.find(3), qf.find(9));
    assert_eq!(qf.find(0), qf.find(7));
    assert_ne!(qf.find(0), qf.find(4));
}

#[test]
fn quick_find_union_is_idempotent() {
    let mut qf = QuickFind::new(3);
    assert_eq!(qf.count(), 3);
    qf.union(0, 1);
    assert_eq!(qf.count(), 2);
    qf.union(1, 0);
    assert_eq!(qf.count(), 2);
    qf.union(2, 2);
    assert_eq!(qf.count(), 2);
    qf.union(2, 0);
    assert_eq!(qf.count(), 1);
}

#[test]
fn quick_union_tiny() {
    let mut qu = sedgewick::union_find::QuickUnion::new(10);
    assert_eq!(union_find(&mut qu, &TINY_UF), 2);
    assert_eq!(qu.count(), 2);
    assert_eq!(qu.find(3), qu.find(9));
    assert_eq!(qu.find(0), qu.find(7));
    assert_ne!(qu.find(0), qu.find(4));
    let r = qu.find(8);
    assert_eq!(qu.ids[r], r);
}

#[test]
fn weighted_quick_union_tiny() {
    let mut wqu = sedgewick::union_find::WeightedQuickUnion::new(10);
    assert_eq!(union_find(&mut wqu, &TINY_UF), 2);
    assert_eq!(wqu.count(), 2);
    let a = wqu.find(0);
    let b = wqu.find(4);
    assert_ne!(a, b);
    assert_eq!(wqu.size[a] + wqu.size[b], 10);
    assert_eq!(wqu.size[a], 6);
    assert_eq!(wqu.size[b], 4);
}

#[test]
fn weighted_quick_union_single_site() {
    let mut wqu = sedgewick::union_find::WeightedQuickUnion::new(1);
    wqu.union(0, 0);
    assert_eq!(wqu.count(), 1);
    assert_eq!(wqu.find(0), 0);
}
