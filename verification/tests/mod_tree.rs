use merk::ops::ModTree;
use merk::tree::Tree;

#[test]
fn mod_tree_counts_pending_writes() {
    let leaf = ModTree::new(Tree::new(vec![1], vec![1]).unwrap());
    let other = ModTree::new(Tree::new(vec![3], vec![3]).unwrap());
    let root = ModTree::new(Tree::new(vec![2], vec![2]).unwrap());
    let root = root.attach(true, Some(leaf));
    assert!(root.child(true).is_some());
    assert!(root.child(false).is_none());
    let root = root.attach(false, Some(other));
    assert!(root.child(false).is_some());
    let deeper = ModTree::new(Tree::new(vec![9], vec![9]).unwrap()).attach(true, Some(root));
    assert!(deeper.child(true).unwrap().child(true).is_some());
}

#[test]
fn batch_op_text() {
    assert_eq!(merk::ops::Op::Put(vec![1, 2, 3]).to_text(), "Put([1, 2, 3])\n");
    assert_eq!(merk::ops::Op::Delete.to_text(), "Delete\n");
    assert_eq!(merk::sparse_tree::TreeOp::Put(&[7, 255]).to_text(), "Put([7, 255])\n");
    assert_eq!(merk::sparse_tree::TreeOp::Delete.to_text(), "Delete\n");
}
