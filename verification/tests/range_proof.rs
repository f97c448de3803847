use merk::node::Node as StoredNode;
use merk::range_proof::{ops_to_text, reconstruct, Node, Op};
use merk::sparse_tree::SparseTree;

#[test]
fn proof_reconstruct() {
    let proof = [
        Op::Push(Node::KV(vec![0], vec![123])),
        Op::Push(Node::KV(vec![1], vec![123])),
        Op::Parent,
        Op::Push(Node::KV(vec![2], vec![123])),
        Op::Child,
        Op::Push(Node::KV(vec![3], vec![123])),
        Op::Parent,
        Op::Push(Node::KV(vec![4], vec![123])),
        Op::Push(Node::KV(vec![5], vec![123])),
        Op::Child,
        Op::Parent,
    ];

    let tree = reconstruct(&proof).unwrap();
    println!("{:?}", tree);
}

#[test]
fn reconstruct_shape_and_links() {
    let proof = [
        Op::Push(Node::KV(vec![0], vec![123])),
        Op::Push(Node::KV(vec![1], vec![123])),
        Op::Parent,
        Op::Push(Node::KV(vec![2], vec![123])),
        Op::Child,
    ];
    let tree = reconstruct(&proof).unwrap();
    assert_eq!(tree.node.key, vec![1]);
    assert_eq!(tree.child_tree(true).unwrap().node.key, vec![0]);
    assert_eq!(tree.child_tree(false).unwrap().node.key, vec![2]);
    let left = tree.node.left.as_ref().unwrap();
    assert_eq!(left.key, vec![0]);
    assert_eq!(left.hash, tree.child_tree(true).unwrap().node.hash());
    assert_eq!(left.height, 1);
    assert_eq!(tree.node.height(), 2);
}

#[test]
fn reconstruct_errors() {
    // a second left child
    let proof = [
        Op::Push(Node::KV(vec![0], vec![1])),
        Op::Push(Node::KV(vec![1], vec![1])),
        Op::Parent,
        Op::Push(Node::KV(vec![2], vec![1])),
        Op::Parent,
        Op::Parent,
    ];
    assert!(reconstruct(&proof).is_err());

    // too many trees on the stack
    let mut proof = vec![];
    for i in 0..51u8 {
        proof.push(Op::Push(Node::KV(vec![i], vec![1])));
    }
    assert!(reconstruct(&proof).is_err());
}

#[test]
fn sparse_tree_it_works() {
    let get_node = |link: &merk::node::Link| StoredNode::new(link.key.as_slice(), b"x");
    let mut st = SparseTree::new(StoredNode::new(b"abc", b"x"));
    println!("{:?}", st);

    st.put(b"abcd", b"x", &get_node);
    println!("{:?}", st);

    st.put(b"a", b"x", &get_node);
    println!("{:?}", st);

    st.put(b"ab", b"x", &get_node);
    println!("{:?}", st);

    st.put(b"ab", b"y", &get_node);
    println!("{:?}", st);

    st.put(b"6", b"x", &get_node);
    println!("{:?}", st);

    st.put(b"b", b"x", &get_node);
    println!("{:?}", st);

    st.put(b"bc", b"x", &get_node);
    println!("{:?}", st);
}

#[test]
fn sparse_tree_put_keeps_links() {
    let get_node = |link: &merk::node::Link| StoredNode::new(link.key.as_slice(), b"x");
    let mut st = SparseTree::new(StoredNode::new(b"m", b"1"));
    st.put(b"c", b"2", &get_node);
    st.put(b"x", b"3", &get_node);
    st.put(b"a", b"4", &get_node);
    st.put(b"c", b"5", &get_node);
    let nodes: Vec<Vec<u8>> = st.modified().iter().map(|n| n.key.clone()).collect();
    assert_eq!(nodes, vec![b"a".to_vec(), b"c".to_vec(), b"m".to_vec(), b"x".to_vec()]);
    let left = st.child_tree(true).unwrap();
    assert_eq!(left.node.value, b"5".to_vec());
    assert_eq!(st.node.left.as_ref().unwrap().hash, left.node.hash());
    assert_eq!(st.node.left.as_ref().unwrap().height, 2);
    assert_eq!(st.node.height(), 3);
    assert_eq!(st.node.balance_factor(), -1);
}

#[test]
fn sparse_tree_rotate_keeps_order() {
    let get_node = |link: &merk::node::Link| StoredNode::new(link.key.as_slice(), b"x");
    let mut st = SparseTree::new(StoredNode::new(b"m", b"1"));
    st.put(b"c", b"2", &get_node);
    st.put(b"a", b"3", &get_node);
    st.put(b"e", b"4", &get_node);
    st.put(b"x", b"5", &get_node);
    let mut slot = Some(Box::new(st));
    SparseTree::rotate(&mut slot, true, &get_node).unwrap();
    let root = slot.unwrap();
    assert_eq!(root.node.key, b"c".to_vec());
    let keys: Vec<Vec<u8>> = root.modified().iter().map(|n| n.key.clone()).collect();
    assert_eq!(keys, vec![b"a".to_vec(), b"c".to_vec(), b"e".to_vec(), b"m".to_vec(), b"x".to_vec()]);
    let right = root.child_tree(false).unwrap();
    assert_eq!(right.node.key, b"m".to_vec());
    assert_eq!(right.child_tree(true).unwrap().node.key, b"e".to_vec());
    assert_eq!(root.node.right.as_ref().unwrap().hash, right.node.hash());
    assert_eq!(right.node.left.as_ref().unwrap().key, b"e".to_vec());
    assert_eq!(root.node.height(), 3);
    assert_eq!(root.node.balance_factor(), 1);
}

#[test]
fn proof_debug() {
    let debug = ops_to_text(&[
        Op::Child,
        Op::Parent,
        Op::Push(Node::KV(vec![1, 2, 3], vec![4, 5, 6])),
        Op::Push(Node::Hash([1; 20])),
        Op::Push(Node::KVHash([2; 20])),
    ]);
    assert_eq!(
        debug,
        "[CHILD, PARENT, PUSH(\u{1}\u{2}\u{3}: \u{4}\u{5}\u{6}), PUSH(hash=010101010101), PUSH(kv_hash=020202020202)]"
    );
}

#[test]
fn proof_text_of_invalid_utf8() {
    let text = ops_to_text(&[Op::Push(Node::KV(vec![255, 10], vec![104, 105]))]);
    assert_eq!(text, "[PUSH([255, 10]: hi)]");
    assert_eq!(ops_to_text(&[]), "[]");
}

fn link_to(node: &StoredNode) -> merk::node::Link {
    node.as_link()
}

#[test]
fn create_then_reconstruct() {
    let left = StoredNode::new(&[3], &[30]);
    let right = StoredNode::new(&[7], &[70]);
    let mut root = StoredNode::new(&[5], &[50]);
    root.set_child(true, Some(link_to(&left)));
    root.set_child(false, Some(link_to(&right)));
    let root_hash = root.hash();

    let ops = merk::range_proof::create(&[left, root, right]);
    assert_eq!(
        ops_to_text(&ops),
        "[PUSH(\u{3}: \u{1e}), PUSH(\u{5}: 2), PARENT, PUSH(\u{7}: F), CHILD]"
    );

    let tree = reconstruct(&ops).unwrap();
    assert_eq!(tree.node.key, vec![5]);
    assert_eq!(tree.node.hash(), root_hash);
}
