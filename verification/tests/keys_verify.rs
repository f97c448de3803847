use merk::proofs::encoding::encode_into;
use merk::proofs::verify::verify_query;
use merk::tree::Tree;

fn make_3_node_tree() -> Tree {
    let mut tree = Tree::new(vec![5], vec![5])
        .expect("tree construction failed")
        .attach(true, Some(Tree::new(vec![3], vec![3]).expect("tree construction failed")))
        .attach(false, Some(Tree::new(vec![7], vec![7]).expect("tree construction failed")));
    tree.commit();
    tree
}

/// The root hash of the three-node tree above.
const EXPECTED_HASH: [u8; 32] = [
    210, 251, 153, 236, 163, 232, 221, 236, 145, 128, 56, 36, 89, 114, 19, 225, 56, 160, 53, 63,
    222, 201, 218, 28, 114, 241, 63, 41, 63, 93, 119, 189,
];

fn verify_test(keys: Vec<Vec<u8>>, expected_result: Vec<Option<Vec<u8>>>) {
    let tree = make_3_node_tree();
    assert_eq!(tree.hash(), EXPECTED_HASH);

    let (proof, _) = tree.create_key_proof(keys.as_slice());
    let mut bytes = vec![];
    encode_into(proof.as_slice(), &mut bytes);

    let result = verify_query(bytes.as_slice(), keys.as_slice(), EXPECTED_HASH).expect("verify failed");
    assert_eq!(result, expected_result);
}

#[test]
fn verify_root_verify() {
    verify_test(vec![vec![5]], vec![Some(vec![5])]);
}

#[test]
fn verify_single_verify() {
    verify_test(vec![vec![3]], vec![Some(vec![3])]);
}

#[test]
fn verify_double_verify() {
    verify_test(vec![vec![3], vec![5]], vec![Some(vec![3]), Some(vec![5])]);
}

#[test]
fn verify_double_verify_2() {
    verify_test(vec![vec![3], vec![7]], vec![Some(vec![3]), Some(vec![7])]);
}

#[test]
fn verify_triple_verify() {
    verify_test(vec![vec![3], vec![5], vec![7]], vec![Some(vec![3]), Some(vec![5]), Some(vec![7])]);
}

#[test]
fn verify_left_edge_absence_verify() {
    verify_test(vec![vec![2]], vec![None]);
}

#[test]
fn verify_right_edge_absence_verify() {
    verify_test(vec![vec![8]], vec![None]);
}

#[test]
fn verify_inner_absence_verify() {
    verify_test(vec![vec![6]], vec![None]);
}

#[test]
fn verify_absent_and_present_verify() {
    verify_test(vec![vec![5], vec![6]], vec![Some(vec![5]), None]);
}

#[test]
fn keys_verify_refuses_wrong_hash() {
    let tree = make_3_node_tree();
    let keys = vec![vec![5]];
    let (proof, _) = tree.create_key_proof(keys.as_slice());
    let mut bytes = vec![];
    encode_into(proof.as_slice(), &mut bytes);
    assert!(verify_query(bytes.as_slice(), keys.as_slice(), [0; 32]).is_err());
}

#[test]
fn keys_verify_answers_keys_past_the_edge() {
    let tree = make_3_node_tree();
    let keys = vec![vec![7], vec![8], vec![9]];
    let (proof, _) = tree.create_key_proof(keys.as_slice());
    let mut bytes = vec![];
    encode_into(proof.as_slice(), &mut bytes);
    let result = verify_query(bytes.as_slice(), keys.as_slice(), EXPECTED_HASH).unwrap();
    assert_eq!(result, vec![Some(vec![7]), None, None]);
}

#[test]
fn verify_keys_mismatch_carries_both_hashes() {
    let tree = make_3_node_tree();
    let keys = vec![vec![3], vec![7]];
    let (proof, _) = tree.create_key_proof(keys.as_slice());
    let mut bytes = vec![];
    encode_into(proof.as_slice(), &mut bytes);

    match verify_query(bytes.as_slice(), keys.as_slice(), [42; 32]) {
        Err(merk::Error::HashMismatch(expected, actual)) => {
            assert_eq!(expected, [42; 32]);
            assert_eq!(actual, EXPECTED_HASH);
        }
        _ => panic!("expected a hash mismatch"),
    }
}
