use merk::proofs::tree::Tree as ProofTree;
use merk::proofs::Node;

fn make_node(i: u8) -> ProofTree {
    ProofTree::from_node(Node::KV(vec![i], vec![]))
}

fn make_7_node_prooftree() -> ProofTree {
    let mut tree = make_node(3);
    let mut left = make_node(1);
    left.attach(true, make_node(0)).unwrap();
    left.attach(false, make_node(2)).unwrap();
    let mut right = make_node(5);
    right.attach(true, make_node(4)).unwrap();
    right.attach(false, make_node(6)).unwrap();
    tree.attach(true, left).unwrap();
    tree.attach(false, right).unwrap();

    tree
}

fn recurse(tree: &ProofTree, expected_height: usize) {
    assert_eq!(tree.height, expected_height);
    tree.left.as_ref().map(|l| recurse(&l.tree, expected_height - 1));
    tree.right.as_ref().map(|r| recurse(&r.tree, expected_height - 1));
}

#[test]
fn height_counting() {
    let tree = make_7_node_prooftree();
    recurse(&tree, 3);
}

fn assert_node(node: &ProofTree, i: u8) {
    match node.node {
        Node::KV(ref key, _) => assert_eq!(key[0], i),
        _ => unreachable!(),
    }
}

#[test]
fn tree_layer_iter() {
    let tree = make_7_node_prooftree();

    let mut iter = tree.layer(0);
    assert_node(iter.next().unwrap(), 3);
    assert!(iter.next().is_none());

    let mut iter = tree.layer(1);
    assert_node(iter.next().unwrap(), 1);
    assert_node(iter.next().unwrap(), 5);
    assert!(iter.next().is_none());

    let mut iter = tree.layer(2);
    assert_node(iter.next().unwrap(), 0);
    assert_node(iter.next().unwrap(), 2);
    assert_node(iter.next().unwrap(), 4);
    assert_node(iter.next().unwrap(), 6);
    assert!(iter.next().is_none());
}

#[test]
fn tree_visit_nodes() {
    let tree = make_7_node_prooftree();

    let visited = tree.visit_nodes();

    let mut iter = visited.into_iter();
    for i in 0..7 {
        match iter.next().unwrap() {
            Node::KV(ref key, _) => assert_eq!(key[0], i),
            _ => unreachable!(),
        }
    }
    assert!(iter.next().is_none());
}

#[test]
fn verify_layer_iter() {
    let tree = make_7_node_prooftree();

    let mut iter = tree.layer(0);
    assert_node(iter.next().unwrap(), 3);
    assert!(iter.next().is_none());

    let mut iter = tree.layer(1);
    assert_node(iter.next().unwrap(), 1);
    assert_node(iter.next().unwrap(), 5);
    assert!(iter.next().is_none());

    let mut iter = tree.layer(2);
    assert_node(iter.next().unwrap(), 0);
    assert_node(iter.next().unwrap(), 2);
    assert_node(iter.next().unwrap(), 4);
    assert_node(iter.next().unwrap(), 6);
    assert!(iter.next().is_none());
}

#[test]
fn verify_visit_nodes() {
    let tree = make_7_node_prooftree();

    let visited = tree.visit_nodes();

    let mut iter = visited.into_iter();
    for i in 0..7 {
        match iter.next().unwrap() {
            Node::KV(ref key, _) => assert_eq!(key[0], i),
            _ => unreachable!(),
        }
    }
    assert!(iter.next().is_none());
}
