use merk::proofs::encoding::encode_into;
use merk::proofs::query::{verify_query, Query, QueryItem};
use merk::proofs::{Node, Op};
use merk::tree::Tree;

fn seq_key(n: u8) -> Vec<u8> {
    vec![0, 0, 0, 0, 0, 0, 0, n]
}

fn seq_node(n: u8) -> Tree {
    Tree::new(seq_key(n), vec![123; 60]).expect("tree construction failed")
}

/// The balanced tree that putting the keys 0 to 9 (eight bytes, big-endian,
/// each with 60 bytes of 123) into a tree holding only `[0; 20]` gives.
fn make_tree_seq_10() -> Tree {
    let low = Tree::new(vec![0; 20], vec![123; 60])
        .expect("tree construction failed")
        .attach(true, Some(seq_node(0)))
        .attach(false, Some(seq_node(2).attach(true, Some(seq_node(1)))));
    let high = seq_node(7)
        .attach(true, Some(seq_node(5).attach(true, Some(seq_node(4))).attach(false, Some(seq_node(6)))))
        .attach(false, Some(seq_node(8).attach(false, Some(seq_node(9)))));
    let mut tree = seq_node(3).attach(true, Some(low)).attach(false, Some(high));
    tree.commit();
    tree
}

const H_LOW: [u8; 32] = [
    15, 172, 198, 205, 200, 229, 61, 211, 164, 58, 222, 10, 226, 47, 87, 80, 30, 147, 173, 69,
    105, 61, 25, 156, 24, 57, 223, 170, 128, 100, 17, 32,
];
const KVH_3: [u8; 32] = [
    252, 83, 231, 211, 74, 65, 100, 80, 251, 110, 182, 76, 90, 44, 213, 30, 241, 239, 2, 5, 216,
    202, 184, 130, 47, 53, 146, 68, 179, 22, 45, 30,
];
const H_4: [u8; 32] = [
    75, 196, 124, 123, 163, 233, 227, 122, 74, 21, 58, 149, 104, 157, 164, 30, 51, 247, 161, 209,
    49, 51, 66, 219, 24, 35, 163, 64, 127, 116, 182, 92,
];
const H_8: [u8; 32] = [
    100, 103, 182, 36, 209, 104, 156, 135, 222, 97, 55, 87, 142, 199, 255, 98, 88, 151, 140, 201,
    243, 181, 239, 121, 37, 81, 83, 252, 217, 161, 111, 67,
];

fn check_range_proof(queryitems: Vec<QueryItem>, expected: Vec<(Vec<u8>, Vec<u8>)>) {
    let tree = make_tree_seq_10();
    let (proof, absence) = tree.create_proof(queryitems.as_slice());

    let mut iter = proof.iter();
    assert_eq!(iter.next(), Some(&Op::Push(Node::Hash(H_LOW))));
    assert_eq!(iter.next(), Some(&Op::Push(Node::KVHash(KVH_3))));
    assert_eq!(iter.next(), Some(&Op::Parent));
    assert_eq!(iter.next(), Some(&Op::Push(Node::Hash(H_4))));
    assert_eq!(iter.next(), Some(&Op::Push(Node::KV(seq_key(5), vec![123; 60]))));
    assert_eq!(iter.next(), Some(&Op::Parent));
    assert_eq!(iter.next(), Some(&Op::Push(Node::KV(seq_key(6), vec![123; 60]))));
    assert_eq!(iter.next(), Some(&Op::Child));
    assert_eq!(iter.next(), Some(&Op::Push(Node::KV(seq_key(7), vec![123; 60]))));
    assert_eq!(iter.next(), Some(&Op::Parent));
    assert_eq!(iter.next(), Some(&Op::Push(Node::Hash(H_8))));
    assert_eq!(iter.next(), Some(&Op::Child));
    assert_eq!(iter.next(), Some(&Op::Child));
    assert!(iter.next().is_none());
    assert_eq!(absence, (false, false));

    let mut bytes = vec![];
    encode_into(proof.as_slice(), &mut bytes);
    let mut query = Query::new();
    for item in queryitems {
        query.insert_item(item);
    }
    let res = verify_query(bytes.as_slice(), &query, tree.hash()).unwrap();
    assert_eq!(res, expected);
}

#[test]
fn range_proof() {
    check_range_proof(
        vec![QueryItem::Range(seq_key(5)..seq_key(7))],
        vec![(seq_key(5), vec![123; 60]), (seq_key(6), vec![123; 60])],
    );
}

#[test]
fn range_proof_inclusive() {
    check_range_proof(
        vec![QueryItem::RangeInclusive(seq_key(5)..=seq_key(7))],
        vec![(seq_key(5), vec![123; 60]), (seq_key(6), vec![123; 60]), (seq_key(7), vec![123; 60])],
    );
}

#[test]
fn range_proof_missing_upper_bound() {
    check_range_proof(
        vec![QueryItem::Range(seq_key(5)..vec![0, 0, 0, 0, 0, 0, 0, 6, 5])],
        vec![(seq_key(5), vec![123; 60]), (seq_key(6), vec![123; 60])],
    );
}

#[test]
fn range_proof_missing_lower_bound() {
    // 7 is not inclusive
    check_range_proof(
        vec![QueryItem::Range(vec![0, 0, 0, 0, 0, 0, 0, 5, 5]..seq_key(7))],
        vec![(seq_key(6), vec![123; 60])],
    );
}
