use sedgewick::sort::priority_queue::{HeapMinPQ, MinPQ, UnorderedMinPQ};

#[test]
fn test_heap_min_pq() {
    let mut min_pq = HeapMinPQ::new();

    assert!(min_pq.is_empty());

    min_pq.insert(4);
    min_pq.insert(3);
    min_pq.insert(3);
    min_pq.insert(9);
    min_pq.insert(2);
    min_pq.insert(3);

    assert_eq!(min_pq.delete_min(), 2);
    assert_eq!(min_pq.size(), 5);

    min_pq.insert(1);
    assert_eq!(min_pq.delete_min(), 1);
    assert_eq!(min_pq.delete_min(), 3);
    assert_eq!(min_pq.delete_min(), 3);
    assert_eq!(min_pq.delete_min(), 3);
}

#[test]
fn test_unordered_min_pq() {
    let mut pq = UnorderedMinPQ::new();

    pq.insert(6);
    pq.insert(2);
    pq.insert(4);
    pq.insert(4);
    pq.insert(3);
    pq.insert(9);

    assert_eq!(pq.delete_min(), 2);
    assert_eq!(pq.delete_min(), 3);
    assert_eq!(pq.delete_min(), 4);

    pq.insert(1);
    pq.insert(1);
    assert_eq!(pq.delete_min(), 1);
    assert_eq!(pq.delete_min(), 1);
    assert_eq!(pq.delete_min(), 4);
    assert_eq!(pq.delete_min(), 6);
    assert_eq!(pq.delete_min(), 9);
}

#[test]
fn heap_min_and_drain_in_order() {
    let mut pq = HeapMinPQ::new();
    for k in [5, -1, 7, 7, 0, 12, -8, 3] {
        pq.insert(k);
    }
    assert_eq!(*pq.min(), -8);
    let mut out = Vec::new();
    while !pq.is_empty() {
        out.push(pq.delete_min());
    }
    assert_eq!(out, vec![-8, -1, 0, 3, 5, 7, 7, 12]);
    assert_eq!(pq.size(), 0);
}

#[test]
fn unordered_min_and_size() {
    let mut pq = UnorderedMinPQ::new();
    assert!(pq.is_empty());
    pq.insert(i64::MAX);
    pq.insert(i64::MIN);
    assert_eq!(*pq.min(), i64::MIN);
    assert_eq!(pq.size(), 2);
    assert_eq!(pq.delete_min(), i64::MIN);
    assert_eq!(pq.delete_min(), i64::MAX);
    assert!(pq.is_empty());
}
