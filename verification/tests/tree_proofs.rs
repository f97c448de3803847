use merk::proofs::encoding::encode_into;
use merk::proofs::query::{verify, verify_query, Query, QueryItem};
use merk::proofs::tree::execute;
use merk::proofs::{Node, Op};
use merk::tree::Tree;

fn make_3_node_tree() -> Tree {
    let mut tree = Tree::new(vec![5], vec![5])
        .unwrap()
        .attach(true, Some(Tree::new(vec![3], vec![3]).unwrap()))
        .attach(false, Some(Tree::new(vec![7], vec![7]).unwrap()));
    tree.commit();
    tree
}

const ROOT: [u8; 32] = [
    210, 251, 153, 236, 163, 232, 221, 236, 145, 128, 56, 36, 89, 114, 19, 225, 56, 160, 53, 63,
    222, 201, 218, 28, 114, 241, 63, 41, 63, 93, 119, 189,
];

#[test]
fn committed_tree_hash() {
    let tree = make_3_node_tree();
    assert_eq!(tree.hash(), ROOT);
    assert_eq!(
        tree.kv_hash(),
        &[
            169, 4, 73, 65, 62, 49, 160, 159, 37, 166, 195, 249, 63, 31, 23, 11, 169, 0, 24, 104,
            179, 211, 218, 38, 108, 129, 117, 232, 65, 101, 194, 157
        ]
    );
    assert_eq!(tree.child_height(true), 1);
}

#[test]
fn executed_proof_has_tree_hash() {
    let tree = make_3_node_tree();
    for items in [
        vec![],
        vec![QueryItem::Key(vec![5])],
        vec![QueryItem::Range(vec![0]..vec![6])],
        vec![QueryItem::RangeInclusive(vec![4]..=vec![9])],
    ] {
        let (proof, _) = tree.create_proof(&items);
        let root = execute(&proof, true).unwrap();
        assert_eq!(root.hash().unwrap(), ROOT);
        assert_eq!(root.node, Node::Hash(ROOT));
        assert!(root.left.is_none() && root.right.is_none());
        let mut bytes = vec![];
        encode_into(&proof, &mut bytes);
        assert!(verify(&bytes, ROOT).is_ok());
    }
}

#[test]
fn range_query_round_trip() {
    let tree = make_3_node_tree();
    let items = vec![QueryItem::Range(vec![4]..vec![8])];
    let (proof, absence) = tree.create_proof(&items);
    assert_eq!(absence, (false, true));
    let mut bytes = vec![];
    encode_into(&proof, &mut bytes);
    let mut query = Query::new();
    query.insert_range(vec![4]..vec![8]);
    let result = verify_query(&bytes, &query, ROOT).unwrap();
    assert_eq!(result, vec![(vec![5], vec![5]), (vec![7], vec![7])]);
}

#[test]
fn wrong_root_hash_is_refused() {
    let tree = make_3_node_tree();
    let (proof, _) = tree.create_key_proof(&[vec![5]]);
    let mut bytes = vec![];
    encode_into(&proof, &mut bytes);
    let mut bad = ROOT;
    bad[0] ^= 1;
    assert!(verify(&bytes, bad).is_err());
    let mut query = Query::new();
    query.insert_key(vec![5]);
    assert!(verify_query(&bytes, &query, bad).is_err());
}

#[test]
fn query_insert_joins_overlapping_ranges() {
    let mut query = Query::new();
    query.insert_range(vec![1]..vec![3]);
    query.insert_range(vec![5]..vec![7]);
    query.insert_range_inclusive(vec![2]..=vec![5]);
    let items = query.into_items();
    assert_eq!(items.len(), 1);
    assert_eq!(items[0].lower_bound(), &[1]);
    assert_eq!(items[0].upper_bound(), (&[7][..], false));
    assert!(items[0].contains(&[4]));
    assert!(!items[0].contains(&[7]));
}

fn leaf(k: u8) -> Tree {
    Tree::new(vec![k], vec![k]).unwrap()
}

fn make_7_node_tree() -> Tree {
    let left = leaf(1).attach(true, Some(leaf(0))).attach(false, Some(leaf(2)));
    let right = leaf(5).attach(true, Some(leaf(4))).attach(false, Some(leaf(6)));
    let mut tree = leaf(3).attach(true, Some(left)).attach(false, Some(right));
    tree.commit();
    tree
}

#[test]
fn trunk_proof_of_full_tree() {
    let tree = make_7_node_tree();
    let proof = tree.create_trunk_proof();
    let left = tree.child(true).unwrap();
    let bottom = left.child(true).unwrap();
    let left_right = left.child(false).unwrap();
    assert_eq!(
        proof,
        vec![
            Op::Push(Node::KVHash(*bottom.kv_hash())),
            Op::Push(Node::KVHash(*left.kv_hash())),
            Op::Parent,
            Op::Push(Node::Hash(left_right.hash())),
            Op::Child,
            Op::Push(Node::KV(vec![3], vec![3])),
            Op::Parent,
        ]
    );
}

fn seq_node(n: u8) -> Tree {
    Tree::new(vec![0, 0, 0, 0, 0, 0, 0, n], vec![123; 60]).expect("tree construction failed")
}

/// The balanced tree that putting the keys 0 to 30 (eight bytes,
/// big-endian, each with 60 bytes of 123) into a tree holding only `[0; 20]`
/// gives.
fn make_tree_seq_31() -> Tree {
    let n2 = seq_node(2)
        .attach(true, Some(seq_node(1)))
        .attach(false, Some(seq_node(3)));
    let low = Tree::new(vec![0; 20], vec![123; 60]).expect("tree construction failed")
        .attach(true, Some(seq_node(0)))
        .attach(false, Some(n2));
    let n6 = seq_node(6)
        .attach(true, Some(seq_node(5)))
        .attach(false, Some(seq_node(7)));
    let n4 = seq_node(4)
        .attach(true, Some(low))
        .attach(false, Some(n6));
    let n10 = seq_node(10)
        .attach(true, Some(seq_node(9)))
        .attach(false, Some(seq_node(11)));
    let n14 = seq_node(14)
        .attach(true, Some(seq_node(13)))
        .attach(false, Some(seq_node(15)));
    let n18 = seq_node(18)
        .attach(true, Some(seq_node(17)))
        .attach(false, Some(seq_node(19)));
    let n16 = seq_node(16)
        .attach(true, Some(n14))
        .attach(false, Some(n18));
    let n12 = seq_node(12)
        .attach(true, Some(n10))
        .attach(false, Some(n16));
    let n8 = seq_node(8)
        .attach(true, Some(n4))
        .attach(false, Some(n12));
    let n22 = seq_node(22)
        .attach(true, Some(seq_node(21)))
        .attach(false, Some(seq_node(23)));
    let n26 = seq_node(26)
        .attach(true, Some(seq_node(25)))
        .attach(false, Some(seq_node(27)));
    let n30 = seq_node(30)
        .attach(true, Some(seq_node(29)));
    let n28 = seq_node(28)
        .attach(true, Some(n26))
        .attach(false, Some(n30));
    let n24 = seq_node(24)
        .attach(true, Some(n22))
        .attach(false, Some(n28));
    let n20 = seq_node(20)
        .attach(true, Some(n8))
        .attach(false, Some(n24));
    let mut tree = n20;
    tree.commit();
    tree
}

#[test]
fn trunk() {
    let tree = make_tree_seq_31();
    let proof = tree.create_trunk_proof();
    println!("{:?}", proof);
}

#[test]
fn execute_collapses_to_hash_node() {
    // Push(KV([3],[3])), Push(KV([5],[5])), Parent
    let ops = vec![
        Op::Push(Node::KV(vec![3], vec![3])),
        Op::Push(Node::KV(vec![5], vec![5])),
        Op::Parent,
    ];
    let full = execute(&ops, false).unwrap();
    assert_eq!(full.node, Node::KV(vec![5], vec![5]));
    assert!(full.left.is_some());
    let h = full.hash().unwrap();
    let collapsed = execute(&ops, true).unwrap();
    assert_eq!(collapsed.node, Node::Hash(h));
    assert!(collapsed.left.is_none() && collapsed.right.is_none());
}
