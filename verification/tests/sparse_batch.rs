use merk::node::{Link, Node};
use merk::sparse_tree::{Mark, SparseTree, TreeOp};
use merk::Error;

fn no_fetch(_link: &Link) -> Node {
    panic!("a tree built in memory needs no fetch")
}

fn keys_of(tree: &SparseTree) -> Vec<Vec<u8>> {
    tree.modified().iter().map(|n| n.key.clone()).collect()
}

fn assert_balanced(tree: &SparseTree) {
    for node in tree.modified() {
        let bf = node.balance_factor();
        assert!((-1..=1).contains(&bf), "node {:?} has balance factor {}", node.key, bf);
    }
}

fn assert_links_match(tree: &SparseTree) {
    for left in [true, false] {
        match tree.child_tree(left) {
            Some(child) => {
                let link = tree.node.child_link(left).as_ref().expect("a subtree must be linked");
                assert_eq!(link.key, child.node.key);
                assert_eq!(link.hash, child.node.hash());
                assert_eq!(link.height, child.node.height());
                assert_links_match(child);
            }
            None => {}
        }
    }
}

fn put_batch(keys: &[[u8; 1]]) -> Vec<(&[u8], TreeOp<'_>)> {
    keys.iter().map(|k| (&k[..], TreeOp::Put(&k[..]))).collect()
}

#[test]
fn from_batch_puts_middle_at_root() {
    let keys: Vec<[u8; 1]> = (1..=7u8).map(|i| [i]).collect();
    let batch = put_batch(&keys);
    let tree = SparseTree::from_batch(&batch, &no_fetch).unwrap().unwrap();
    assert_eq!(tree.node.key, vec![4]);
    assert_eq!(keys_of(&tree), (1..=7u8).map(|i| vec![i]).collect::<Vec<_>>());
    assert_eq!(tree.node.height(), 3);
    assert_balanced(&tree);
    assert_links_match(&tree);
}

#[test]
fn from_batch_empty_is_none() {
    let batch: Vec<(&[u8], TreeOp)> = vec![];
    assert!(SparseTree::from_batch(&batch, &no_fetch).unwrap().is_none());
}

#[test]
fn from_batch_rejects_delete() {
    let batch: Vec<(&[u8], TreeOp)> = vec![(&b"a"[..], TreeOp::Put(b"1")), (&b"b"[..], TreeOp::Delete)];
    match SparseTree::from_batch(&batch, &no_fetch) {
        Err(Error::KeyDelete(key)) => assert_eq!(key, b"b".to_vec()),
        _ => panic!("expected a delete error"),
    }
}

#[test]
fn apply_to_empty_slot_builds_tree() {
    let mut slot = None;
    let keys: Vec<[u8; 1]> = (1..=3u8).map(|i| [i]).collect();
    SparseTree::apply(&mut slot, &no_fetch, &put_batch(&keys)).unwrap();
    let tree = slot.unwrap();
    assert_eq!(tree.node.key, vec![2]);
    assert_eq!(keys_of(&tree), vec![vec![1], vec![2], vec![3]]);
}

#[test]
fn apply_interleaves_new_keys() {
    let evens: Vec<[u8; 1]> = [2u8, 4, 6].iter().map(|&i| [i]).collect();
    let mut slot = SparseTree::from_batch(&put_batch(&evens), &no_fetch).unwrap();
    let odds: Vec<[u8; 1]> = [1u8, 3, 5, 7].iter().map(|&i| [i]).collect();
    SparseTree::apply(&mut slot, &no_fetch, &put_batch(&odds)).unwrap();
    let tree = slot.unwrap();
    assert_eq!(keys_of(&tree), (1..=7u8).map(|i| vec![i]).collect::<Vec<_>>());
    assert_balanced(&tree);
    assert_links_match(&tree);
}

#[test]
fn apply_put_replaces_value() {
    let keys: Vec<[u8; 1]> = (1..=3u8).map(|i| [i]).collect();
    let mut slot = SparseTree::from_batch(&put_batch(&keys), &no_fetch).unwrap();
    let batch: Vec<(&[u8], TreeOp)> = vec![(&[3u8][..], TreeOp::Put(b"new"))];
    SparseTree::apply(&mut slot, &no_fetch, &batch).unwrap();
    let tree = slot.unwrap();
    let node = tree.modified().into_iter().find(|n| n.key == vec![3]).unwrap();
    assert_eq!(node.value, b"new".to_vec());
    assert_eq!(keys_of(&tree), vec![vec![1], vec![2], vec![3]]);
    assert_links_match(&tree);
}

#[test]
fn apply_delete_removes_root_and_others() {
    let keys: Vec<[u8; 1]> = (1..=7u8).map(|i| [i]).collect();
    let mut slot = SparseTree::from_batch(&put_batch(&keys), &no_fetch).unwrap();
    let batch: Vec<(&[u8], TreeOp)> =
        vec![(&[2u8][..], TreeOp::Delete), (&[4u8][..], TreeOp::Delete), (&[7u8][..], TreeOp::Delete)];
    SparseTree::apply(&mut slot, &no_fetch, &batch).unwrap();
    let tree = slot.unwrap();
    assert_eq!(keys_of(&tree), vec![vec![1], vec![3], vec![5], vec![6]]);
    assert_balanced(&tree);
    assert_links_match(&tree);
}

#[test]
fn apply_delete_of_absent_key_fails() {
    let keys: Vec<[u8; 1]> = [1u8, 3].iter().map(|&i| [i]).collect();
    let mut slot = SparseTree::from_batch(&put_batch(&keys), &no_fetch).unwrap();
    let batch: Vec<(&[u8], TreeOp)> = vec![(&[2u8][..], TreeOp::Delete)];
    match SparseTree::apply(&mut slot, &no_fetch, &batch) {
        Err(Error::KeyDelete(key)) => assert_eq!(key, vec![2]),
        _ => panic!("expected a delete error"),
    }
}

#[test]
fn apply_one_at_a_time_stays_balanced() {
    let mut slot: Option<Box<SparseTree>> = None;
    for i in 0..100u8 {
        let key = [i];
        let batch: Vec<(&[u8], TreeOp)> = vec![(&key[..], TreeOp::Put(b"v"))];
        SparseTree::apply(&mut slot, &no_fetch, &batch).unwrap();
    }
    let tree = slot.unwrap();
    assert_eq!(keys_of(&tree), (0..100u8).map(|i| vec![i]).collect::<Vec<_>>());
    assert_balanced(&tree);
    assert_links_match(&tree);
    assert!(tree.node.height() <= 8);
}

#[test]
fn apply_fetches_missing_subtrees() {
    let keys: Vec<[u8; 1]> = (1..=3u8).map(|i| [i]).collect();
    let mut root = SparseTree::from_batch(&put_batch(&keys), &no_fetch).unwrap().unwrap();
    root.prune();
    assert!(root.child_tree(true).is_none());
    let fetch = |link: &Link| -> Node { Node::new(&link.key, &link.key) };
    let mut slot = Some(root);
    let batch: Vec<(&[u8], TreeOp)> = vec![(&[4u8][..], TreeOp::Put(b"4"))];
    SparseTree::apply(&mut slot, &fetch, &batch).unwrap();
    let tree = slot.unwrap();
    assert_eq!(keys_of(&tree), vec![vec![2], vec![3], vec![4]]);
    assert_links_match(&tree);
}

#[test]
fn remove_edge_takes_smallest_key() {
    let keys: Vec<[u8; 1]> = (1..=5u8).map(|i| [i]).collect();
    let mut slot = SparseTree::from_batch(&put_batch(&keys), &no_fetch).unwrap();
    let edge = SparseTree::remove_edge(&mut slot, &no_fetch, true).unwrap().unwrap();
    assert_eq!(edge.node.key, vec![1]);
    assert!(edge.node.child_link(true).is_none());
    assert!(edge.node.child_link(false).is_none());
    let tree = slot.unwrap();
    assert_eq!(keys_of(&tree), vec![vec![2], vec![3], vec![4], vec![5]]);
    assert_links_match(&tree);
}

#[test]
fn remove_edge_takes_largest_key() {
    let keys: Vec<[u8; 1]> = (1..=5u8).map(|i| [i]).collect();
    let mut slot = SparseTree::from_batch(&put_batch(&keys), &no_fetch).unwrap();
    let edge = SparseTree::remove_edge(&mut slot, &no_fetch, false).unwrap().unwrap();
    assert_eq!(edge.node.key, vec![5]);
    let tree = slot.unwrap();
    assert_eq!(keys_of(&tree), vec![vec![1], vec![2], vec![3], vec![4]]);
}

#[test]
fn remove_takes_root_out() {
    let keys: Vec<[u8; 1]> = (1..=7u8).map(|i| [i]).collect();
    let mut slot = SparseTree::from_batch(&put_batch(&keys), &no_fetch).unwrap();
    let removed = SparseTree::remove(&mut slot, &no_fetch).unwrap();
    assert_eq!(removed.node.key, vec![4]);
    let tree = slot.unwrap();
    assert_eq!(keys_of(&tree), vec![vec![1], vec![2], vec![3], vec![5], vec![6], vec![7]]);
    assert_balanced(&tree);
    assert_links_match(&tree);
}

#[test]
fn remove_last_node_empties_slot() {
    let keys: Vec<[u8; 1]> = vec![[9u8]];
    let mut slot = SparseTree::from_batch(&put_batch(&keys), &no_fetch).unwrap();
    let removed = SparseTree::remove(&mut slot, &no_fetch).unwrap();
    assert_eq!(removed.node.key, vec![9]);
    assert!(slot.is_none());
}

#[test]
fn tree_op_text_of_empty_value() {
    assert_eq!(TreeOp::Put(&[]).to_text(), "Put([])\n");
    assert_eq!(TreeOp::Delete.to_text(), "Delete\n");
}

fn copy_link(l: &Option<Link>) -> Option<Link> {
    l.as_ref().map(|l| Link { key: l.key.clone(), hash: l.hash, height: l.height })
}

fn copy_node(n: &Node) -> Node {
    Node {
        key: n.key.clone(),
        value: n.value.clone(),
        kv_hash: n.kv_hash,
        parent_key: None,
        left: copy_link(&n.left),
        right: copy_link(&n.right),
    }
}

/// A store holding copies of every node of `tree`, fetched by key.
fn store_of(tree: &SparseTree) -> Vec<Node> {
    tree.modified().iter().map(|n| copy_node(n)).collect()
}

#[test]
fn from_batch_three_puts_shape() {
    let batch: Vec<(&[u8], TreeOp)> =
        vec![(&[1u8][..], TreeOp::Put(&[10])), (&[2u8][..], TreeOp::Put(&[20])), (&[3u8][..], TreeOp::Put(&[30]))];
    let tree = SparseTree::from_batch(&batch, &no_fetch).unwrap().unwrap();
    assert_eq!(tree.node.key, vec![2]);
    let left = tree.child_tree(true).unwrap();
    let right = tree.child_tree(false).unwrap();
    assert_eq!((left.node.key.clone(), left.node.value.clone()), (vec![1], vec![10]));
    assert_eq!((right.node.key.clone(), right.node.value.clone()), (vec![3], vec![30]));
    assert!(left.child_tree(true).is_none() && left.child_tree(false).is_none());
    assert!(right.child_tree(true).is_none() && right.child_tree(false).is_none());
    assert_links_match(&tree);
}

#[test]
fn apply_on_partly_loaded_tree_keeps_stored_pairs() {
    let keys: Vec<[u8; 1]> = (1..=15u8).map(|i| [i]).collect();
    let full = SparseTree::from_batch(&put_batch(&keys), &no_fetch).unwrap().unwrap();
    let store = store_of(&full);
    let fetch = move |link: &Link| -> Node {
        copy_node(store.iter().find(|n| n.key == link.key).expect("stored node"))
    };
    let mut root = full;
    root.prune();
    let mut slot = Some(root);
    let batch: Vec<(&[u8], TreeOp)> =
        vec![(&[3u8][..], TreeOp::Delete), (&[9u8][..], TreeOp::Put(b"nine")), (&[20u8][..], TreeOp::Put(b"x"))];
    SparseTree::apply(&mut slot, &fetch, &batch).unwrap();
    let mut tree = slot.unwrap();
    tree.load_all(&fetch);
    let mut expected: Vec<Vec<u8>> = (1..=15u8).filter(|&i| i != 3).map(|i| vec![i]).collect();
    expected.push(vec![20]);
    assert_eq!(keys_of(&tree), expected);
    let nine = tree.modified().into_iter().find(|n| n.key == vec![9]).unwrap();
    assert_eq!(nine.value, b"nine".to_vec());
    assert_balanced(&tree);
}

#[test]
fn apply_empty_none() {
    let mut slot: Option<Box<SparseTree>> = None;
    let batch: Vec<(&[u8], TreeOp)> = vec![];
    SparseTree::apply(&mut slot, &no_fetch, &batch).expect("apply failed");
    assert!(slot.is_none());
}

fn mark_text(marks: &[Mark]) -> String {
    marks
        .iter()
        .map(|m| match m {
            Mark::Bar => " │  ",
            Mark::Blank => "    ",
            Mark::Tee => " ├",
            Mark::Corner => " └",
            Mark::LeftTag => "L─",
            Mark::RightTag => "R─",
        })
        .collect()
}

#[test]
fn outline_draws_subtrees_below_their_parents() {
    let keys: Vec<[u8; 1]> = (1..=7u8).map(|i| [i]).collect();
    let tree = SparseTree::from_batch(&put_batch(&keys), &no_fetch).unwrap().unwrap();
    let lines: Vec<(String, Vec<u8>)> =
        tree.outline().into_iter().map(|(marks, node)| (mark_text(&marks), node.key.clone())).collect();
    let expected: Vec<(String, Vec<u8>)> = vec![
        ("".to_string(), vec![4]),
        (" ├L─".to_string(), vec![2]),
        (" │   ├L─".to_string(), vec![1]),
        (" │   └R─".to_string(), vec![3]),
        (" └R─".to_string(), vec![6]),
        ("     ├L─".to_string(), vec![5]),
        ("     └R─".to_string(), vec![7]),
    ];
    assert_eq!(lines, expected);
}
