use sedgewick::misc::{three_sum, three_sum_binary, two_sum, two_sum_fast};

#[test]
fn two_sum_counts_zero_pairs() {
    assert_eq!(two_sum(&[]), 0);
    assert_eq!(two_sum(&[1, -1, 2, -2, 3]), 2);
    assert_eq!(two_sum(&[0, 0, 0]), 3);
    assert_eq!(two_sum(&[i32::MAX, i32::MIN, 1]), 0);
    assert_eq!(two_sum(&[i32::MIN + 1, i32::MAX]), 1);
}

#[test]
fn three_sum_counts_zero_triples() {
    assert_eq!(three_sum(&[30, -40, -20, -10, 40, 0, 10, 5]), 4);
    assert_eq!(three_sum(&[0, 0, 0, 0]), 4);
    assert_eq!(three_sum(&[1, 2]), 0);
    assert_eq!(three_sum(&[i32::MAX, i32::MAX, i32::MIN]), 0);
}

#[test]
fn two_sum_fast_matches_two_sum_on_distinct_keys() {
    let keys = [30, -40, -20, -10, 40, 0, 10, 5, i32::MIN, i32::MAX, -i32::MAX];
    let mut list = keys.to_vec();
    assert_eq!(two_sum_fast(&mut list), two_sum(&keys));
    assert_eq!(two_sum(&keys), 3);
    let mut sorted = keys.to_vec();
    sorted.sort();
    assert_eq!(list, sorted);
    let mut empty: Vec<i32> = vec![];
    assert_eq!(two_sum_fast(&mut empty), 0);
}

#[test]
fn three_sum_binary_matches_three_sum_on_distinct_keys() {
    let keys = [30, -40, -20, -10, 40, 0, 10, 5, i32::MAX, i32::MIN + 1, 1];
    let mut list = keys.to_vec();
    assert_eq!(three_sum_binary(&mut list), three_sum(&keys));
    assert_eq!(three_sum(&keys), 5);
    let mut sorted = keys.to_vec();
    sorted.sort();
    assert_eq!(list, sorted);
}
