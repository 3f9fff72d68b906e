use sedgewick::symbol_table::ordered_vec::OrderedVecST;

#[test]
fn ordered_vec_put_get_delete() {
    let mut st: OrderedVecST<&str> = OrderedVecST::new();
    assert!(st.is_empty());
    st.put(5, "five");
    st.put(-1, "minus one");
    st.put(9, "nine");
    st.put(5, "FIVE");
    assert_eq!(st.size(), 3);
    assert_eq!(st.keys(), &vec![-1, 5, 9]);
    assert_eq!(st.get(&5), Some(&"FIVE"));
    assert_eq!(st.get(&4), None);
    assert!(st.contains(&9));
    st.delete(5);
    st.delete(100);
    assert!(!st.contains(&5));
    assert_eq!(st.keys(), &vec![-1, 9]);
    assert_eq!(st.size(), 2);
}

#[test]
fn ordered_vec_counts_words() {
    let mut st: OrderedVecST<usize> = OrderedVecST::new();
    for k in [3, 1, 3, 2, 3, 1] {
        let n = st.get(&k).copied().unwrap_or(0);
        st.put(k, n + 1);
    }
    assert_eq!(st.get(&3), Some(&3));
    assert_eq!(st.get(&1), Some(&2));
    assert_eq!(st.get(&2), Some(&1));
}
