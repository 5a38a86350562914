use consensus_scp::value::{compare_bytes, compare_values, Rank, Value};

#[test]
fn bytes_compare_in_lexicographic_order() {
    assert!(compare_bytes(&vec![1, 2], &vec![1, 2, 0]) == Rank::Below);
    assert!(compare_bytes(&vec![2], &vec![1, 9]) == Rank::Above);
    assert!(compare_bytes(&vec![], &vec![]) == Rank::Same);
}

#[test]
fn numbers_compare_as_numbers() {
    assert!(compare_values(&1000u32, &2000u32) == Rank::Below);
    assert!(compare_values(&70000u32, &255u32) == Rank::Above);
    assert_eq!(258u32.to_key(), vec![0, 0, 1, 2]);
}
