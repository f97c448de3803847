use merk::proofs::encoding::encode_into;
use merk::proofs::{Node, Op};
use merk::tree::{Link, Tree};

fn make_3_node_tree() -> Tree {
    Tree::from_fields(
        vec![5],
        vec![5],
        [105; 32],
        Some(Link::Loaded {
            child_heights: (0, 0),
            hash: [3; 32],
            tree: Tree::from_fields(vec![3], vec![3], [103; 32], None, None),
        }),
        Some(Link::Loaded {
            child_heights: (0, 0),
            hash: [7; 32],
            tree: Tree::from_fields(vec![7], vec![7], [107; 32], None, None),
        }),
    )
}

#[test]
fn query_empty_proof() {
    let tree = make_3_node_tree();
    let (proof, absence) = tree.create_key_proof(vec![].as_slice());

    let mut iter = proof.iter();
    assert_eq!(iter.next(), Some(&Op::Push(Node::Hash([3; 32]))));
    assert_eq!(iter.next(), Some(&Op::Push(Node::KVHash([105; 32]))));
    assert_eq!(iter.next(), Some(&Op::Parent));
    assert_eq!(iter.next(), Some(&Op::Push(Node::Hash([7; 32]))));
    assert_eq!(iter.next(), Some(&Op::Child));
    assert!(iter.next().is_none());
    assert_eq!(absence, (false, false));
}

#[test]
fn query_root_proof() {
    let tree = make_3_node_tree();
    let (proof, absence) = tree.create_key_proof(vec![vec![5]].as_slice());

    let mut iter = proof.iter();
    assert_eq!(iter.next(), Some(&Op::Push(Node::Hash([3; 32]))));
    assert_eq!(iter.next(), Some(&Op::Push(Node::KV(vec![5], vec![5]))));
    assert_eq!(iter.next(), Some(&Op::Parent));
    assert_eq!(iter.next(), Some(&Op::Push(Node::Hash([7; 32]))));
    assert_eq!(iter.next(), Some(&Op::Child));
    assert!(iter.next().is_none());
    assert_eq!(absence, (false, false));
}

#[test]
fn query_leaf_proof() {
    let tree = make_3_node_tree();
    let (proof, absence) = tree.create_key_proof(vec![vec![3]].as_slice());

    let mut iter = proof.iter();
    assert_eq!(iter.next(), Some(&Op::Push(Node::KV(vec![3], vec![3]))));
    assert_eq!(iter.next(), Some(&Op::Push(Node::KVHash([105; 32]))));
    assert_eq!(iter.next(), Some(&Op::Parent));
    assert_eq!(iter.next(), Some(&Op::Push(Node::Hash([7; 32]))));
    assert_eq!(iter.next(), Some(&Op::Child));
    assert!(iter.next().is_none());
    assert_eq!(absence, (false, false));
}

#[test]
fn query_double_leaf_proof() {
    let tree = make_3_node_tree();
    let (proof, absence) = tree.create_key_proof(vec![vec![3], vec![7]].as_slice());

    let mut iter = proof.iter();
    assert_eq!(iter.next(), Some(&Op::Push(Node::KV(vec![3], vec![3]))));
    assert_eq!(iter.next(), Some(&Op::Push(Node::KVHash([105; 32]))));
    assert_eq!(iter.next(), Some(&Op::Parent));
    assert_eq!(iter.next(), Some(&Op::Push(Node::KV(vec![7], vec![7]))));
    assert_eq!(iter.next(), Some(&Op::Child));
    assert!(iter.next().is_none());
    assert_eq!(absence, (false, false));
}

#[test]
fn query_all_nodes_proof() {
    let tree = make_3_node_tree();
    let (proof, absence) = tree.create_key_proof(vec![vec![3], vec![5], vec![7]].as_slice());

    let mut iter = proof.iter();
    assert_eq!(iter.next(), Some(&Op::Push(Node::KV(vec![3], vec![3]))));
    assert_eq!(iter.next(), Some(&Op::Push(Node::KV(vec![5], vec![5]))));
    assert_eq!(iter.next(), Some(&Op::Parent));
    assert_eq!(iter.next(), Some(&Op::Push(Node::KV(vec![7], vec![7]))));
    assert_eq!(iter.next(), Some(&Op::Child));
    assert!(iter.next().is_none());
    assert_eq!(absence, (false, false));
}

#[test]
fn query_global_edge_absence_proof() {
    let tree = make_3_node_tree();
    let (proof, absence) = tree.create_key_proof(vec![vec![8]].as_slice());

    let mut iter = proof.iter();
    assert_eq!(iter.next(), Some(&Op::Push(Node::Hash([3; 32]))));
    assert_eq!(iter.next(), Some(&Op::Push(Node::KVHash([105; 32]))));
    assert_eq!(iter.next(), Some(&Op::Parent));
    assert_eq!(iter.next(), Some(&Op::Push(Node::KV(vec![7], vec![7]))));
    assert_eq!(iter.next(), Some(&Op::Child));
    assert!(iter.next().is_none());
    assert_eq!(absence, (false, true));
}

#[test]
fn query_absence_proof() {
    let tree = make_3_node_tree();
    let (proof, absence) = tree.create_key_proof(vec![vec![6]].as_slice());

    let mut iter = proof.iter();
    assert_eq!(iter.next(), Some(&Op::Push(Node::Hash([3; 32]))));
    assert_eq!(iter.next(), Some(&Op::Push(Node::KV(vec![5], vec![5]))));
    assert_eq!(iter.next(), Some(&Op::Parent));
    assert_eq!(iter.next(), Some(&Op::Push(Node::KV(vec![7], vec![7]))));
    assert_eq!(iter.next(), Some(&Op::Child));
    assert!(iter.next().is_none());
    assert_eq!(absence, (false, false));
}

fn loaded(hash: u8, tree: Tree) -> Option<Link> {
    Some(Link::Loaded { child_heights: (0, 0), hash: [hash; 32], tree })
}

#[test]
fn query_doc_proof() {
    let tree = Tree::from_fields(
        vec![5],
        vec![5],
        [105; 32],
        loaded(
            2,
            Tree::from_fields(
                vec![2],
                vec![2],
                [102; 32],
                loaded(1, Tree::from_fields(vec![1], vec![1], [101; 32], None, None)),
                loaded(
                    4,
                    Tree::from_fields(
                        vec![4],
                        vec![4],
                        [104; 32],
                        loaded(3, Tree::from_fields(vec![3], vec![3], [103; 32], None, None)),
                        None,
                    ),
                ),
            ),
        ),
        loaded(
            9,
            Tree::from_fields(
                vec![9],
                vec![9],
                [109; 32],
                loaded(
                    7,
                    Tree::from_fields(
                        vec![7],
                        vec![7],
                        [107; 32],
                        loaded(6, Tree::from_fields(vec![6], vec![6], [106; 32], None, None)),
                        loaded(8, Tree::from_fields(vec![8], vec![8], [108; 32], None, None)),
                    ),
                ),
                loaded(
                    11,
                    Tree::from_fields(
                        vec![11],
                        vec![11],
                        [111; 32],
                        loaded(10, Tree::from_fields(vec![10], vec![10], [110; 32], None, None)),
                        None,
                    ),
                ),
            ),
        ),
    );

    let (proof, absence) =
        tree.create_key_proof(vec![vec![1], vec![2], vec![3], vec![4]].as_slice());

    let mut iter = proof.iter();
    assert_eq!(iter.next(), Some(&Op::Push(Node::KV(vec![1], vec![1]))));
    assert_eq!(iter.next(), Some(&Op::Push(Node::KV(vec![2], vec![2]))));
    assert_eq!(iter.next(), Some(&Op::Parent));
    assert_eq!(iter.next(), Some(&Op::Push(Node::KV(vec![3], vec![3]))));
    assert_eq!(iter.next(), Some(&Op::Push(Node::KV(vec![4], vec![4]))));
    assert_eq!(iter.next(), Some(&Op::Parent));
    assert_eq!(iter.next(), Some(&Op::Child));
    assert_eq!(iter.next(), Some(&Op::Push(Node::KVHash([105; 32]))));
    assert_eq!(iter.next(), Some(&Op::Parent));
    assert_eq!(iter.next(), Some(&Op::Push(Node::Hash([9; 32]))));
    assert_eq!(iter.next(), Some(&Op::Child));
    assert!(iter.next().is_none());
    assert_eq!(absence, (false, false));

    let mut bytes = vec![];
    encode_into(proof.as_slice(), &mut bytes);
    assert_eq!(
        bytes,
        vec![
            3, 1, 1, 0, 1, 1, 3, 1, 2, 0, 1, 2, 16, 3, 1, 3, 0, 1, 3, 3, 1, 4, 0, 1, 4, 16, 17,
            2, 105, 105, 105, 105, 105, 105, 105, 105, 105, 105, 105, 105, 105, 105, 105, 105,
            105, 105, 105, 105, 105, 105, 105, 105, 105, 105, 105, 105, 105, 105, 105, 105, 16,
            1, 9, 9, 9, 9, 9, 9, 9, 9, 9, 9, 9, 9, 9, 9, 9, 9, 9, 9, 9, 9, 9, 9, 9, 9, 9, 9, 9,
            9, 9, 9, 9, 9, 17
        ]
    );
}
