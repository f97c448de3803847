use merk::proofs::encoding::encode_into;
use merk::proofs::query::{verify, verify_query, Query, QueryItem};
use merk::proofs::{Node, Op};
use merk::tree::{prove_unchecked, root_hash, Tree};

fn make_3_node_tree() -> Tree {
    let mut tree = Tree::new(vec![5], vec![5])
        .expect("tree construction failed")
        .attach(true, Some(Tree::new(vec![3], vec![3]).expect("tree construction failed")))
        .attach(false, Some(Tree::new(vec![7], vec![7]).expect("tree construction failed")));
    tree.commit();
    tree
}

fn leaf(n: u8) -> Tree {
    Tree::new(vec![n], vec![n]).expect("tree construction failed")
}

fn query_of(items: Vec<QueryItem>) -> Query {
    let mut query = Query::new();
    for item in items {
        query.insert_item(item);
    }
    query
}

const H_LEFT: [u8; 32] = [
    218, 87, 59, 46, 181, 250, 196, 81, 201, 130, 112, 225, 149, 163, 111, 96, 187, 10, 253, 72,
    152, 249, 133, 124, 74, 85, 119, 216, 3, 51, 85, 23,
];
const KVH_ROOT: [u8; 32] = [
    169, 4, 73, 65, 62, 49, 160, 159, 37, 166, 195, 249, 63, 31, 23, 11, 169, 0, 24, 104, 179,
    211, 218, 38, 108, 129, 117, 232, 65, 101, 194, 157,
];
const H_RIGHT: [u8; 32] = [
    157, 106, 215, 69, 200, 37, 192, 49, 179, 191, 192, 216, 235, 226, 168, 238, 86, 46, 126, 85,
    209, 214, 128, 228, 162, 15, 20, 64, 234, 242, 215, 198,
];

#[test]
fn mod_empty_proof() {
    let tree = make_3_node_tree();
    let (proof, absence) = tree.create_proof(vec![].as_slice());

    let mut iter = proof.iter();
    assert_eq!(iter.next(), Some(&Op::Push(Node::Hash(H_LEFT))));
    assert_eq!(iter.next(), Some(&Op::Push(Node::KVHash(KVH_ROOT))));
    assert_eq!(iter.next(), Some(&Op::Parent));
    assert_eq!(iter.next(), Some(&Op::Push(Node::Hash(H_RIGHT))));
    assert_eq!(iter.next(), Some(&Op::Child));
    assert!(iter.next().is_none());
    assert_eq!(absence, (false, false));

    let mut bytes = vec![];
    encode_into(proof.as_slice(), &mut bytes);
    let res = verify_query(bytes.as_slice(), &Query::new(), tree.hash()).unwrap();
    assert!(res.is_empty());
}

#[test]
fn mod_root_proof() {
    let tree = make_3_node_tree();
    let queryitems = vec![QueryItem::Key(vec![5])];
    let (proof, absence) = tree.create_proof(queryitems.as_slice());

    let mut iter = proof.iter();
    assert_eq!(iter.next(), Some(&Op::Push(Node::Hash(H_LEFT))));
    assert_eq!(iter.next(), Some(&Op::Push(Node::KV(vec![5], vec![5]))));
    assert_eq!(iter.next(), Some(&Op::Parent));
    assert_eq!(iter.next(), Some(&Op::Push(Node::Hash(H_RIGHT))));
    assert_eq!(iter.next(), Some(&Op::Child));
    assert!(iter.next().is_none());
    assert_eq!(absence, (false, false));

    let mut bytes = vec![];
    encode_into(proof.as_slice(), &mut bytes);
    let res = verify_query(bytes.as_slice(), &query_of(queryitems), tree.hash()).unwrap();
    assert_eq!(res, vec![(vec![5], vec![5])]);
}

#[test]
fn mod_leaf_proof() {
    let tree = make_3_node_tree();
    let queryitems = vec![QueryItem::Key(vec![3])];
    let (proof, absence) = tree.create_proof(queryitems.as_slice());

    let mut iter = proof.iter();
    assert_eq!(iter.next(), Some(&Op::Push(Node::KV(vec![3], vec![3]))));
    assert_eq!(iter.next(), Some(&Op::Push(Node::KVHash(KVH_ROOT))));
    assert_eq!(iter.next(), Some(&Op::Parent));
    assert_eq!(iter.next(), Some(&Op::Push(Node::Hash(H_RIGHT))));
    assert_eq!(iter.next(), Some(&Op::Child));
    assert!(iter.next().is_none());
    assert_eq!(absence, (false, false));

    let mut bytes = vec![];
    encode_into(proof.as_slice(), &mut bytes);
    let res = verify_query(bytes.as_slice(), &query_of(queryitems), tree.hash()).unwrap();
    assert_eq!(res, vec![(vec![3], vec![3])]);
}

#[test]
fn mod_double_leaf_proof() {
    let tree = make_3_node_tree();
    let queryitems = vec![QueryItem::Key(vec![3]), QueryItem::Key(vec![7])];
    let (proof, absence) = tree.create_proof(queryitems.as_slice());

    let mut iter = proof.iter();
    assert_eq!(iter.next(), Some(&Op::Push(Node::KV(vec![3], vec![3]))));
    assert_eq!(iter.next(), Some(&Op::Push(Node::KVHash(KVH_ROOT))));
    assert_eq!(iter.next(), Some(&Op::Parent));
    assert_eq!(iter.next(), Some(&Op::Push(Node::KV(vec![7], vec![7]))));
    assert_eq!(iter.next(), Some(&Op::Child));
    assert!(iter.next().is_none());
    assert_eq!(absence, (false, false));

    let mut bytes = vec![];
    encode_into(proof.as_slice(), &mut bytes);
    let res = verify_query(bytes.as_slice(), &query_of(queryitems), tree.hash()).unwrap();
    assert_eq!(res, vec![(vec![3], vec![3]), (vec![7], vec![7])]);
}

#[test]
fn mod_all_nodes_proof() {
    let tree = make_3_node_tree();
    let queryitems = vec![QueryItem::Key(vec![3]), QueryItem::Key(vec![5]), QueryItem::Key(vec![7])];
    let (proof, absence) = tree.create_proof(queryitems.as_slice());

    let mut iter = proof.iter();
    assert_eq!(iter.next(), Some(&Op::Push(Node::KV(vec![3], vec![3]))));
    assert_eq!(iter.next(), Some(&Op::Push(Node::KV(vec![5], vec![5]))));
    assert_eq!(iter.next(), Some(&Op::Parent));
    assert_eq!(iter.next(), Some(&Op::Push(Node::KV(vec![7], vec![7]))));
    assert_eq!(iter.next(), Some(&Op::Child));
    assert!(iter.next().is_none());
    assert_eq!(absence, (false, false));

    let mut bytes = vec![];
    encode_into(proof.as_slice(), &mut bytes);
    let res = verify_query(bytes.as_slice(), &query_of(queryitems), tree.hash()).unwrap();
    assert_eq!(res, vec![(vec![3], vec![3]), (vec![5], vec![5]), (vec![7], vec![7])]);
}

#[test]
fn mod_global_edge_absence_proof() {
    let tree = make_3_node_tree();
    let queryitems = vec![QueryItem::Key(vec![8])];
    let (proof, absence) = tree.create_proof(queryitems.as_slice());

    let mut iter = proof.iter();
    assert_eq!(iter.next(), Some(&Op::Push(Node::Hash(H_LEFT))));
    assert_eq!(iter.next(), Some(&Op::Push(Node::KVHash(KVH_ROOT))));
    assert_eq!(iter.next(), Some(&Op::Parent));
    assert_eq!(iter.next(), Some(&Op::Push(Node::KV(vec![7], vec![7]))));
    assert_eq!(iter.next(), Some(&Op::Child));
    assert!(iter.next().is_none());
    assert_eq!(absence, (false, true));

    let mut bytes = vec![];
    encode_into(proof.as_slice(), &mut bytes);
    let res = verify_query(bytes.as_slice(), &query_of(queryitems), tree.hash()).unwrap();
    assert_eq!(res, vec![]);
}

#[test]
fn mod_absence_proof() {
    let tree = make_3_node_tree();
    let queryitems = vec![QueryItem::Key(vec![6])];
    let (proof, absence) = tree.create_proof(queryitems.as_slice());

    let mut iter = proof.iter();
    assert_eq!(iter.next(), Some(&Op::Push(Node::Hash(H_LEFT))));
    assert_eq!(iter.next(), Some(&Op::Push(Node::KV(vec![5], vec![5]))));
    assert_eq!(iter.next(), Some(&Op::Parent));
    assert_eq!(iter.next(), Some(&Op::Push(Node::KV(vec![7], vec![7]))));
    assert_eq!(iter.next(), Some(&Op::Child));
    assert!(iter.next().is_none());
    assert_eq!(absence, (false, false));

    let mut bytes = vec![];
    encode_into(proof.as_slice(), &mut bytes);
    let res = verify_query(bytes.as_slice(), &query_of(queryitems), tree.hash()).unwrap();
    assert_eq!(res, vec![]);
}

#[test]
fn mod_doc_proof() {
    let mut tree = leaf(5)
        .attach(
            true,
            Some(leaf(2).attach(true, Some(leaf(1))).attach(false, Some(leaf(4).attach(true, Some(leaf(3)))))),
        )
        .attach(
            false,
            Some(
                leaf(9)
                    .attach(true, Some(leaf(7).attach(true, Some(leaf(6))).attach(false, Some(leaf(8)))))
                    .attach(false, Some(leaf(11).attach(true, Some(leaf(10))))),
            ),
        );
    tree.commit();

    let queryitems = vec![
        QueryItem::Key(vec![1]),
        QueryItem::Key(vec![2]),
        QueryItem::Key(vec![3]),
        QueryItem::Key(vec![4]),
    ];
    let (proof, absence) = tree.create_proof(queryitems.as_slice());

    let mut iter = proof.iter();
    assert_eq!(iter.next(), Some(&Op::Push(Node::KV(vec![1], vec![1]))));
    assert_eq!(iter.next(), Some(&Op::Push(Node::KV(vec![2], vec![2]))));
    assert_eq!(iter.next(), Some(&Op::Parent));
    assert_eq!(iter.next(), Some(&Op::Push(Node::KV(vec![3], vec![3]))));
    assert_eq!(iter.next(), Some(&Op::Push(Node::KV(vec![4], vec![4]))));
    assert_eq!(iter.next(), Some(&Op::Parent));
    assert_eq!(iter.next(), Some(&Op::Child));
    assert_eq!(iter.next(), Some(&Op::Push(Node::KVHash(KVH_ROOT))));
    assert_eq!(iter.next(), Some(&Op::Parent));
    assert_eq!(
        iter.next(),
        Some(&Op::Push(Node::Hash([
            180, 78, 218, 181, 40, 119, 102, 2, 245, 248, 164, 64, 124, 48, 21, 3, 44, 73, 17, 3,
            131, 188, 171, 103, 58, 72, 20, 73, 155, 137, 46, 88
        ])))
    );
    assert_eq!(iter.next(), Some(&Op::Child));
    assert!(iter.next().is_none());
    assert_eq!(absence, (false, false));

    let mut bytes = vec![];
    encode_into(proof.as_slice(), &mut bytes);
    assert_eq!(
        bytes,
        vec![
            3, 1, 1, 0, 1, 1, 3, 1, 2, 0, 1, 2, 16, 3, 1, 3, 0, 1, 3, 3, 1, 4, 0, 1, 4, 16, 17, 2,
            169, 4, 73, 65, 62, 49, 160, 159, 37, 166, 195, 249, 63, 31, 23, 11, 169, 0, 24, 104,
            179, 211, 218, 38, 108, 129, 117, 232, 65, 101, 194, 157, 16, 1, 180, 78, 218, 181, 40,
            119, 102, 2, 245, 248, 164, 64, 124, 48, 21, 3, 44, 73, 17, 3, 131, 188, 171, 103, 58,
            72, 20, 73, 155, 137, 46, 88, 17
        ]
    );

    let res = verify_query(bytes.as_slice(), &query_of(queryitems), tree.hash()).unwrap();
    assert_eq!(
        res,
        vec![(vec![1], vec![1]), (vec![2], vec![2]), (vec![3], vec![3]), (vec![4], vec![4])]
    );
}

#[test]
fn verify_ops() {
    let mut tree = leaf(5);
    tree.commit();

    let root_hash = tree.hash();
    let (proof, _) = tree.create_proof(vec![QueryItem::Key(vec![5])].as_slice());
    let mut bytes = vec![];
    encode_into(proof.as_slice(), &mut bytes);

    let map = verify(&bytes, root_hash).unwrap();
    assert_eq!(map.get(vec![5].as_slice()).unwrap().unwrap(), vec![5].as_slice());
}

#[test]
fn prove_unchecked_round_trip() {
    let tree = make_3_node_tree();
    let items = vec![QueryItem::Key(vec![3]), QueryItem::Range(vec![6]..vec![9])];
    let bytes = prove_unchecked(Some(&tree), items.as_slice()).unwrap();
    let res = verify_query(bytes.as_slice(), &query_of(items), root_hash(Some(&tree))).unwrap();
    assert_eq!(res, vec![(vec![3], vec![3]), (vec![7], vec![7])]);
    assert!(prove_unchecked(None, items_of_key(5).as_slice()).is_err());
    assert_eq!(root_hash(None), [0; 32]);
}

fn items_of_key(k: u8) -> Vec<QueryItem> {
    vec![QueryItem::Key(vec![k])]
}

#[test]
#[should_panic(expected = "verify failed")]
fn verify_ops_mismatched_hash() {
    let mut tree = leaf(5);
    tree.commit();

    let (proof, _) = tree.create_proof(vec![QueryItem::Key(vec![5])].as_slice());
    let mut bytes = vec![];
    encode_into(proof.as_slice(), &mut bytes);

    let _map = verify(&bytes, [42; 32]).expect("verify failed");
}

#[test]
#[should_panic(expected = "verify failed")]
fn verify_query_mismatched_hash() {
    let tree = make_3_node_tree();
    let keys = vec![vec![5], vec![7]];
    let items: Vec<QueryItem> = keys.clone().into_iter().map(QueryItem::Key).collect();
    let (proof, _) = tree.create_proof(items.as_slice());
    let mut bytes = vec![];
    encode_into(proof.as_slice(), &mut bytes);

    let mut query = Query::new();
    for key in keys.iter() {
        query.insert_key(key.clone());
    }

    let _result = verify_query(bytes.as_slice(), &query, [42; 32]).expect("verify failed");
}

#[test]
fn verify_mismatch_carries_both_hashes() {
    let mut tree = leaf(5);
    tree.commit();
    let (proof, _) = tree.create_proof(vec![QueryItem::Key(vec![5])].as_slice());
    let mut bytes = vec![];
    encode_into(proof.as_slice(), &mut bytes);

    match verify(&bytes, [42; 32]) {
        Err(merk::Error::HashMismatch(expected, actual)) => {
            assert_eq!(expected, [42; 32]);
            assert_eq!(actual, tree.hash());
        }
        _ => panic!("expected a hash mismatch"),
    }
}

#[test]
fn verify_query_mismatch_carries_both_hashes() {
    let tree = make_3_node_tree();
    let items = vec![QueryItem::Key(vec![5]), QueryItem::Key(vec![7])];
    let (proof, _) = tree.create_proof(items.as_slice());
    let mut bytes = vec![];
    encode_into(proof.as_slice(), &mut bytes);
    let query = query_of(items);

    match verify_query(bytes.as_slice(), &query, [42; 32]) {
        Err(merk::Error::HashMismatch(expected, actual)) => {
            assert_eq!(expected, [42; 32]);
            assert_eq!(actual, tree.hash());
        }
        _ => panic!("expected a hash mismatch"),
    }
}
