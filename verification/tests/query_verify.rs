use merk::bytes::Order;
use merk::proofs::encoding::encode_into;
use merk::proofs::query::{verify_query, Query, QueryItem};
use merk::tree::Tree;
use std::collections::HashMap;

fn make_3_node_tree() -> Tree {
    let left = Tree::new(vec![3], vec![3]).expect("tree construction failed");
    let right = Tree::new(vec![7], vec![7]).expect("tree construction failed");
    let mut tree = Tree::new(vec![5], vec![5])
        .expect("tree construction failed")
        .attach(true, Some(left))
        .attach(false, Some(right));
    tree.commit();
    tree
}

fn verify_keys_test(keys: Vec<Vec<u8>>, expected_result: Vec<Option<Vec<u8>>>) {
    let tree = make_3_node_tree();
    let items: Vec<QueryItem> = keys.clone().into_iter().map(QueryItem::Key).collect();
    let (proof, _) = tree.create_proof(items.as_slice());
    let mut bytes = vec![];
    encode_into(proof.as_slice(), &mut bytes);

    let expected_hash = [
        210, 251, 153, 236, 163, 232, 221, 236, 145, 128, 56, 36, 89, 114, 19, 225, 56, 160, 53,
        63, 222, 201, 218, 28, 114, 241, 63, 41, 63, 93, 119, 189,
    ];

    let mut query = Query::new();
    for key in keys.iter() {
        query.insert_key(key.clone());
    }

    let result = verify_query(bytes.as_slice(), &query, expected_hash).expect("verify failed");

    let mut values = HashMap::new();
    for (key, value) in result {
        assert!(values.insert(key, value).is_none());
    }

    for (key, expected_value) in keys.iter().zip(expected_result.iter()) {
        assert_eq!(values.get(key), expected_value.as_ref());
    }
}

#[test]
fn mod_root_verify() {
    verify_keys_test(vec![vec![5]], vec![Some(vec![5])])
}

#[test]
fn mod_single_verify() {
    verify_keys_test(vec![vec![3]], vec![Some(vec![3])])
}

#[test]
fn mod_double_verify() {
    verify_keys_test(vec![vec![3], vec![5]], vec![Some(vec![3]), Some(vec![5])])
}

#[test]
fn mod_double_verify_2() {
    verify_keys_test(vec![vec![3], vec![7]], vec![Some(vec![3]), Some(vec![7])])
}

#[test]
fn mod_triple_verify() {
    verify_keys_test(
        vec![vec![3], vec![5], vec![7]],
        vec![Some(vec![3]), Some(vec![5]), Some(vec![7])],
    )
}

#[test]
fn mod_left_edge_absence_verify() {
    verify_keys_test(vec![vec![2]], vec![None])
}

#[test]
fn mod_right_edge_absence_verify() {
    verify_keys_test(vec![vec![8]], vec![None])
}

#[test]
fn mod_inner_absence_verify() {
    verify_keys_test(vec![vec![6]], vec![None])
}

#[test]
fn mod_absent_and_present_verify() {
    verify_keys_test(vec![vec![5], vec![6]], vec![Some(vec![5]), None])
}

#[test]
fn query_item_cmp() {
    assert!(QueryItem::Key(vec![10]) < QueryItem::Key(vec![20]));
    assert!(QueryItem::Key(vec![10]) == QueryItem::Key(vec![10]));
    assert!(QueryItem::Key(vec![20]) > QueryItem::Key(vec![10]));

    assert!(QueryItem::Key(vec![10]) < QueryItem::Range(vec![20]..vec![30]));
    assert!(QueryItem::Key(vec![10]) == QueryItem::Range(vec![10]..vec![20]));
    assert!(QueryItem::Key(vec![15]) == QueryItem::Range(vec![10]..vec![20]));
    assert!(QueryItem::Key(vec![20]) > QueryItem::Range(vec![10]..vec![20]));
    assert!(QueryItem::Key(vec![20]) == QueryItem::RangeInclusive(vec![10]..=vec![20]));
    assert!(QueryItem::Key(vec![30]) > QueryItem::Range(vec![10]..vec![20]));

    assert!(QueryItem::Range(vec![10]..vec![20]) < QueryItem::Range(vec![30]..vec![40]));
    assert!(QueryItem::Range(vec![10]..vec![20]) < QueryItem::Range(vec![20]..vec![30]));
    assert!(QueryItem::RangeInclusive(vec![10]..=vec![20]) == QueryItem::Range(vec![20]..vec![30]));
    assert!(QueryItem::Range(vec![15]..vec![25]) == QueryItem::Range(vec![20]..vec![30]));
    assert!(QueryItem::Range(vec![20]..vec![30]) > QueryItem::Range(vec![10]..vec![20]));
}

#[test]
fn query_item_merge() {
    let mine = QueryItem::Range(vec![10]..vec![30]);
    let other = QueryItem::Range(vec![15]..vec![20]);
    assert_eq!(mine.merge(other), QueryItem::Range(vec![10]..vec![30]));

    let mine = QueryItem::RangeInclusive(vec![10]..=vec![30]);
    let other = QueryItem::Range(vec![20]..vec![30]);
    assert_eq!(mine.merge(other), QueryItem::RangeInclusive(vec![10]..=vec![30]));

    let mine = QueryItem::Key(vec![5]);
    let other = QueryItem::Range(vec![1]..vec![10]);
    assert_eq!(mine.merge(other), QueryItem::Range(vec![1]..vec![10]));

    let mine = QueryItem::Key(vec![10]);
    let other = QueryItem::RangeInclusive(vec![1]..=vec![10]);
    assert_eq!(mine.merge(other), QueryItem::RangeInclusive(vec![1]..=vec![10]));
}

#[test]
fn query_insert() {
    let mut query = Query::new();
    query.insert_key(vec![2]);
    query.insert_range(vec![3]..vec![5]);
    query.insert_range_inclusive(vec![5]..=vec![7]);
    query.insert_range(vec![4]..vec![6]);
    query.insert_key(vec![5]);

    let items = query.into_items();
    let mut iter = items.iter();
    assert_eq!(format!("{:?}", iter.next()), "Some(Key([2]))");
    assert_eq!(format!("{:?}", iter.next()), "Some(RangeInclusive([3]..=[7]))");
    assert_eq!(iter.next(), None);
}

#[test]
fn query_from_vec() {
    let queryitems =
        vec![QueryItem::Range(vec![0, 0, 0, 0, 0, 0, 0, 5, 5]..vec![0, 0, 0, 0, 0, 0, 0, 7])];
    let query = Query::from_items(queryitems);

    let expected =
        vec![QueryItem::Range(vec![0, 0, 0, 0, 0, 0, 0, 5, 5]..vec![0, 0, 0, 0, 0, 0, 0, 7])];
    let items = query.into_items();
    assert_eq!(items, expected);
    assert_eq!(format!("{:?}", items), format!("{:?}", expected));
}

#[test]
fn query_into_vec() {
    let mut query = Query::new();
    query.insert_item(QueryItem::Range(
        vec![0, 0, 0, 0, 0, 0, 5, 5]..vec![0, 0, 0, 0, 0, 0, 0, 7],
    ));
    let query_vec: Vec<QueryItem> = query.into_items();
    let expected =
        vec![QueryItem::Range(vec![0, 0, 0, 0, 0, 0, 5, 5]..vec![0, 0, 0, 0, 0, 0, 0, 7])];
    assert_eq!(
        query_vec.get(0).unwrap().lower_bound(),
        expected.get(0).unwrap().lower_bound()
    );
    assert_eq!(
        query_vec.get(0).unwrap().upper_bound(),
        expected.get(0).unwrap().upper_bound()
    );
}

#[test]
fn query_item_from_vec_u8() {
    let queryitems: Vec<u8> = vec![42];
    let query = QueryItem::from(queryitems);

    let expected = QueryItem::Key(vec![42]);
    assert_eq!(query, expected);
    assert_eq!(query.compare(&expected), Order::Equal);
}

#[test]
fn insert_key_closes_open_range_end() {
    let mut q = Query::new();
    q.insert_range(vec![3]..vec![5]);
    q.insert_key(vec![5]);
    let items = q.into_items();
    assert_eq!(items.len(), 1);
    match &items[0] {
        QueryItem::RangeInclusive(r) => {
            assert_eq!(r.start(), &vec![3]);
            assert_eq!(r.end(), &vec![5]);
        },
        _ => panic!("expected an inclusive range"),
    }

    let mut q = Query::new();
    q.insert_range(vec![3]..vec![5]);
    q.insert_key(vec![6]);
    let items = q.into_items();
    assert_eq!(items.len(), 2);
    assert!(matches!(&items[1], QueryItem::Key(k) if k == &vec![6]));
}
