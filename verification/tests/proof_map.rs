use merk::proofs::query::map::{KeyBound, MapBuilder};
use merk::proofs::Node;
use merk::HASH_LENGTH;

#[test]
fn mapbuilder_insert_including_edge() {
    let mut builder = MapBuilder::new();
    builder.insert(&Node::Hash([0; HASH_LENGTH])).unwrap();
    builder.insert(&Node::KV(vec![1, 2, 4], vec![])).unwrap();

    assert!(builder.map().right_edge());
}

#[test]
fn mapbuilder_insert_abridged_edge() {
    let mut builder = MapBuilder::new();
    builder.insert(&Node::KV(vec![1, 2, 3], vec![])).unwrap();
    builder.insert(&Node::Hash([0; HASH_LENGTH])).unwrap();

    assert!(!builder.map().right_edge());
}

#[test]
fn mapbuilder_build() {
    let mut builder = MapBuilder::new();
    builder.insert(&Node::KV(vec![1, 2, 3], vec![1])).unwrap();
    builder.insert(&Node::Hash([0; HASH_LENGTH])).unwrap();
    builder.insert(&Node::KV(vec![1, 2, 4], vec![2])).unwrap();

    let map = builder.build();
    let mut entries = map.entries().iter();
    assert_eq!(entries.next(), Some(&(vec![1, 2, 3], true, vec![1])));
    assert_eq!(entries.next(), Some(&(vec![1, 2, 4], false, vec![2])));
    assert_eq!(entries.next(), None);
    assert!(map.right_edge());
}

#[test]
fn map_get_included() {
    let mut builder = MapBuilder::new();
    builder.insert(&Node::KV(vec![1, 2, 3], vec![1])).unwrap();
    builder.insert(&Node::Hash([0; HASH_LENGTH])).unwrap();
    builder.insert(&Node::KV(vec![1, 2, 4], vec![2])).unwrap();

    let map = builder.build();
    assert_eq!(map.get(&[1, 2, 3]).unwrap().unwrap(), vec![1],);
    assert_eq!(map.get(&[1, 2, 4]).unwrap().unwrap(), vec![2],);
}

#[test]
fn map_get_valid_absence_proof() {
    let mut builder = MapBuilder::new();
    builder.insert(&Node::KV(vec![1, 2, 3], vec![1])).unwrap();
    builder.insert(&Node::KV(vec![1, 2, 4], vec![2])).unwrap();

    let map = builder.build();
    assert!(map.get(&[1, 2, 3, 4]).unwrap().is_none());
}

#[test]
fn range_ok() {
    let mut builder = MapBuilder::new();
    builder.insert(&Node::KV(vec![1, 2, 3], vec![1])).unwrap();
    builder.insert(&Node::KV(vec![1, 2, 4], vec![2])).unwrap();
    builder.insert(&Node::KV(vec![1, 2, 5], vec![3])).unwrap();

    let map = builder.build();
    let mut range = map.range(KeyBound::Included(vec![1u8, 2, 3]), KeyBound::Excluded(vec![1u8, 2, 5]));
    assert_eq!(range.next().unwrap().unwrap(), (&[1, 2, 3][..], &[1][..]));
    assert_eq!(range.next().unwrap().unwrap(), (&[1, 2, 4][..], &[2][..]));
    assert!(range.next().is_none());
    assert!(range.next().is_none());
}

#[test]
fn range_reach_proof_end() {
    let mut builder = MapBuilder::new();
    builder.insert(&Node::KV(vec![1, 2, 3], vec![1])).unwrap();
    builder.insert(&Node::KV(vec![1, 2, 4], vec![2])).unwrap();

    let map = builder.build();
    let mut range = map.range(KeyBound::Included(vec![1u8, 2, 3]), KeyBound::Unbounded);
    assert_eq!(range.next().unwrap().unwrap(), (&[1, 2, 3][..], &[1][..]));
    assert_eq!(range.next().unwrap().unwrap(), (&[1, 2, 4][..], &[2][..]));
    assert!(range.next().is_none());
}

#[test]
fn range_unbounded() {
    let mut builder = MapBuilder::new();
    builder.insert(&Node::KV(vec![1, 2, 3], vec![1])).unwrap();
    builder.insert(&Node::KV(vec![1, 2, 4], vec![2])).unwrap();

    let map = builder.build();
    let mut range = map.range(KeyBound::Unbounded, KeyBound::Unbounded);
    assert_eq!(range.next().unwrap().unwrap(), (&[1, 2, 3][..], &[1][..]));
    assert_eq!(range.next().unwrap().unwrap(), (&[1, 2, 4][..], &[2][..]));
    assert!(range.next().is_none());
}

#[test]
#[should_panic(expected = "Expected nodes to be in increasing key order")]
fn mapbuilder_insert_out_of_order() {
    let mut builder = MapBuilder::new();
    builder.insert(&Node::KV(vec![1, 2, 3], vec![])).unwrap();
    builder.insert(&Node::KV(vec![1, 2, 2], vec![])).unwrap();
}

#[test]
#[should_panic(expected = "Expected nodes to be in increasing key order")]
fn mapbuilder_insert_dupe() {
    let mut builder = MapBuilder::new();
    builder.insert(&Node::KV(vec![1, 2, 3], vec![])).unwrap();
    builder.insert(&Node::KV(vec![1, 2, 3], vec![])).unwrap();
}

#[test]
#[should_panic(expected = "MissingData")]
fn map_get_missing_absence_proof() {
    let mut builder = MapBuilder::new();
    builder.insert(&Node::KV(vec![1, 2, 3], vec![1])).unwrap();
    builder.insert(&Node::Hash([0; HASH_LENGTH])).unwrap();
    builder.insert(&Node::KV(vec![1, 2, 4], vec![2])).unwrap();

    let map = builder.build();
    map.get(&[1, 2, 3, 4]).unwrap();
}

#[test]
#[should_panic(expected = "MissingData")]
fn range_abridged() {
    let mut builder = MapBuilder::new();
    builder.insert(&Node::KV(vec![1, 2, 3], vec![1])).unwrap();
    builder.insert(&Node::Hash([0; HASH_LENGTH])).unwrap();
    builder.insert(&Node::KV(vec![1, 2, 4], vec![2])).unwrap();

    let map = builder.build();
    let mut range = map.range(KeyBound::Included(vec![1u8, 2, 3]), KeyBound::Excluded(vec![1u8, 2, 4]));
    assert_eq!(range.next().unwrap().unwrap(), (&[1, 2, 3][..], &[1][..]));
    range.next().unwrap().unwrap();
}

#[test]
#[should_panic(expected = "MissingData")]
fn range_lower_unbounded_map_non_contiguous() {
    let mut builder = MapBuilder::new();
    builder.insert(&Node::KV(vec![1, 2, 3], vec![1])).unwrap();
    builder.insert(&Node::Hash([1; HASH_LENGTH])).unwrap();
    builder.insert(&Node::KV(vec![1, 2, 4], vec![1])).unwrap();

    let map = builder.build();

    let mut range = map.range(KeyBound::Unbounded, KeyBound::Excluded(vec![1u8, 2, 5]));
    range.next().unwrap().unwrap();
    assert_eq!(range.next().unwrap().unwrap(), (&[1][..], &[1][..]));
}
