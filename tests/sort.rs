use rand::{thread_rng, Rng};
use sedgewick::binary_search::binary_search;
use sedgewick::sort::elementary_sort::selection_sort;
use sedgewick::sort::merge_sort::merge_sort;

fn sample() -> Vec<i64> {
    vec![5, 3, 9, -2, 3, 0, 12, 7, 7, -8, 1, 4, 6]
}

fn std_sorted(mut v: Vec<i64>) -> Vec<i64> {
    v.sort();
    v
}

#[test]
fn selection_sort_matches_std() {
    let mut l = sample();
    selection_sort(&mut l);
    assert_eq!(l, std_sorted(sample()));
    let mut empty: Vec<i64> = vec![];
    selection_sort(&mut empty);
    assert!(empty.is_empty());
}

#[test]
fn merge_sort_matches_std() {
    let mut l = sample();
    merge_sort(&mut l);
    assert_eq!(l, std_sorted(sample()));
    let mut one = vec![42];
    merge_sort(&mut one);
    assert_eq!(one, vec![42]);
}

#[test]
fn binary_search_finds_and_places() {
    let v = vec![-3, 0, 2, 2, 5, 9];
    assert_eq!(binary_search(&v, &5), Ok(4));
    assert_eq!(binary_search(&v, &-3), Ok(0));
    assert!(matches!(binary_search(&v, &2), Ok(2) | Ok(3)));
    assert_eq!(binary_search(&v, &1), Err(2));
    assert_eq!(binary_search(&v, &-10), Err(0));
    assert_eq!(binary_search(&v, &10), Err(6));
    assert_eq!(binary_search(&[], &1), Err(0));
}

#[test]
fn test_quick_sort() {
    let mut rng = thread_rng();
    let mut l1: Vec<i64> = (0..100).map(|_| rng.gen_range(0..100)).collect();
    let mut l2 = l1.clone();

    l1.sort_by(|a, b| a.partial_cmp(b).unwrap());

    sedgewick::sort::quick_sort::quick_sort(&mut l2);

    assert_eq!(l1, l2);
}

#[test]
fn quick_sort_small_and_empty() {
    let mut l = sample();
    sedgewick::sort::quick_sort::quick_sort(&mut l);
    assert_eq!(l, std_sorted(sample()));
    let mut empty: Vec<i64> = vec![];
    sedgewick::sort::quick_sort::quick_sort(&mut empty);
    assert!(empty.is_empty());
    let mut same = vec![7; 50];
    sedgewick::sort::quick_sort::quick_sort(&mut same);
    assert_eq!(same, vec![7; 50]);
}

#[test]
fn top_down() {
    let mut rng = thread_rng();
    let mut l1: Vec<i64> = (0..13).map(|_| rng.gen_range(0..10)).collect();
    let mut l2 = l1.clone();

    l1.sort_by(|a, b| a.partial_cmp(b).unwrap());

    sedgewick::sort::merge_sort::merge_sort_with_aux(&mut l2);

    assert_eq!(l1, l2);

    let mut empty: Vec<i64> = vec![];
    sedgewick::sort::merge_sort::merge_sort_with_aux(&mut empty);
    assert!(empty.is_empty());
}

#[test]
fn bottom_up() {
    let mut rng = thread_rng();
    let mut l1: Vec<i64> = (0..100).map(|_| rng.gen_range(0..10)).collect();
    let mut l2 = l1.clone();

    l1.sort_by(|a, b| a.partial_cmp(b).unwrap());

    sedgewick::sort::merge_sort::bottom_up_merge_sort(&mut l2);

    assert_eq!(l1, l2);
}

#[test]
fn bottom_up_odd_lengths() {
    for n in [0usize, 1, 2, 3, 5, 7, 13, 33] {
        let mut l: Vec<i64> = (0..n as i64).rev().collect();
        sedgewick::sort::merge_sort::bottom_up_merge_sort(&mut l);
        assert_eq!(l, (0..n as i64).collect::<Vec<i64>>());
    }
}

#[test]
fn selection_sort_random() {
    let mut rng = thread_rng();
    let l1: Vec<i64> = (0..1000).map(|_| rng.gen_range(-500..500)).collect();
    let mut l2 = l1.clone();
    selection_sort(&mut l2);
    assert_eq!(l2, std_sorted(l1));
}
