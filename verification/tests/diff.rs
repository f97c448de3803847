use merk::diff::{compare_nodes, compare_trees, Difference, NodeFacts};
use merk::tree::Tree;

fn facts(key: &[u8], value: &[u8], hash: u8) -> NodeFacts {
    NodeFacts { key: key.to_vec(), value: value.to_vec(), hash: [hash; 32] }
}

#[test]
fn compare_empty_sides() {
    assert!(matches!(compare_nodes(None, None), Difference::Same));
    let b = facts(b"k", b"v", 1);
    match compare_nodes(None, Some(&b)) {
        Difference::OnlySecond(k) => assert_eq!(k, b"k".to_vec()),
        _ => panic!("expected the second side's key"),
    }
    match compare_nodes(Some(&b), None) {
        Difference::OnlyFirst(k) => assert_eq!(k, b"k".to_vec()),
        _ => panic!("expected the first side's key"),
    }
}

#[test]
fn compare_same_hash_stops() {
    let a = facts(b"a", b"1", 7);
    let b = facts(b"b", b"2", 7);
    assert!(matches!(compare_nodes(Some(&a), Some(&b)), Difference::Same));
}

#[test]
fn compare_reports_keys_then_values_then_children() {
    let a = facts(b"a", b"1", 1);
    match compare_nodes(Some(&a), Some(&facts(b"b", b"1", 2))) {
        Difference::Keys(x, y) => assert_eq!((x, y), (b"a".to_vec(), b"b".to_vec())),
        _ => panic!("expected differing keys"),
    }
    match compare_nodes(Some(&a), Some(&facts(b"a", b"2", 2))) {
        Difference::Values(x, y) => assert_eq!((x, y), (b"1".to_vec(), b"2".to_vec())),
        _ => panic!("expected differing values"),
    }
    assert!(matches!(compare_nodes(Some(&a), Some(&facts(b"a", b"1", 2))), Difference::Children));
}

fn three(left_value: u8, right_key: u8) -> Tree {
    let mut tree = Tree::new(vec![5], vec![5])
        .expect("tree construction failed")
        .attach(true, Some(Tree::new(vec![3], vec![left_value]).expect("tree construction failed")))
        .attach(false, Some(Tree::new(vec![right_key], vec![7]).expect("tree construction failed")));
    tree.commit();
    tree
}

#[test]
fn compare_trees_walks_into_differing_children() {
    let a = three(3, 7);
    let b = three(4, 8);
    let found = compare_trees(Some(&a), Some(&b));
    assert_eq!(found.len(), 2);
    match &found[0] {
        Difference::Values(x, y) => assert_eq!((x.clone(), y.clone()), (vec![3], vec![4])),
        _ => panic!("expected the left children's values"),
    }
    match &found[1] {
        Difference::Keys(x, y) => assert_eq!((x.clone(), y.clone()), (vec![7], vec![8])),
        _ => panic!("expected the right children's keys"),
    }
}

#[test]
fn compare_trees_of_equal_trees_finds_nothing() {
    let a = three(3, 7);
    let b = three(3, 7);
    assert!(compare_trees(Some(&a), Some(&b)).is_empty());
    assert!(compare_trees(None, None).is_empty());
    let only = compare_trees(None, Some(&b));
    assert_eq!(only.len(), 1);
    assert!(matches!(&only[0], Difference::OnlySecond(k) if *k == vec![5]));
}
