use merk::commit::sorted_writes;

#[test]
fn sorted_writes_merges_deletions_in_key_order() {
    let written = vec![(vec![5u8], Some(vec![50u8])), (vec![1], Some(vec![10])), (vec![3], Some(vec![30]))];
    let deleted = vec![vec![4u8], vec![2]];
    let r = sorted_writes(written, deleted);
    assert_eq!(
        r,
        vec![
            (vec![1u8], Some(vec![10u8])),
            (vec![2], None),
            (vec![3], Some(vec![30])),
            (vec![4], None),
            (vec![5], Some(vec![50])),
        ]
    );
}

#[test]
fn sorted_writes_keeps_order_of_equal_keys() {
    let written = vec![(vec![2u8], Some(vec![1u8])), (vec![1], Some(vec![9])), (vec![2], Some(vec![2]))];
    let deleted = vec![vec![2u8]];
    let r = sorted_writes(written, deleted);
    assert_eq!(
        r,
        vec![(vec![1u8], Some(vec![9u8])), (vec![2], Some(vec![1])), (vec![2], Some(vec![2])), (vec![2], None)]
    );
    assert!(sorted_writes(vec![], vec![]).is_empty());
}
