use merk::node::{Link, Node};
use merk::raw::{RawNode, RAWNODE_HEAD_LENGTH};

#[test]
fn node_new_hashes_key_and_value() {
    let node = Node::new(b"abc", b"x");
    assert_eq!(
        node.kv_hash,
        [209, 243, 188, 106, 42, 151, 104, 88, 49, 29, 142, 86, 6, 74, 217, 93, 173, 80, 190, 101]
    );
    assert_eq!(
        node.hash(),
        [153, 84, 193, 215, 52, 220, 98, 217, 16, 165, 137, 132, 14, 230, 120, 33, 31, 188, 237, 242]
    );
    assert_eq!(node.height(), 1);
    assert_eq!(node.balance_factor(), 0);
    assert!(node.child_link(true).is_none());
}

#[test]
fn node_links_and_heights() {
    let mut node = Node::new(b"m", b"1");
    node.set_child(true, Some(Link { key: b"c".to_vec(), hash: [7; 20], height: 3 }));
    node.set_child(false, Some(Link { key: b"x".to_vec(), hash: [8; 20], height: 1 }));
    assert_eq!(node.child_height(true), 3);
    assert_eq!(node.child_height(false), 1);
    assert_eq!(node.height(), 4);
    assert_eq!(node.balance_factor(), -2);
    let link = node.as_link();
    assert_eq!(link.key, b"m".to_vec());
    assert_eq!(link.hash, node.hash());
    assert_eq!(link.height, 4);
}

#[test]
fn node_set_value_rehashes() {
    let mut node = Node::new(b"abc", b"y");
    let before = node.kv_hash;
    node.set_value(b"x");
    assert_ne!(before, node.kv_hash);
    assert_eq!(node.kv_hash, Node::new(b"abc", b"x").kv_hash);
    node.set_parent(b"zzz".to_vec());
    assert_eq!(node.parent_key, Some(b"abc".to_vec()));
}

fn raw_bytes(value_len: usize) -> Vec<u8> {
    let mut bytes = vec![];
    bytes.extend_from_slice(&[0; 20]);
    bytes.extend_from_slice(&[1; 20]);
    bytes.extend_from_slice(&[2; 80]);
    bytes.extend_from_slice(&[3; 80]);
    bytes.extend_from_slice(&[4; 80]);
    bytes.push(5);
    bytes.push(6);
    for i in 0..value_len {
        bytes.push(i as u8);
    }
    bytes
}

#[test]
fn raw_node_fields() {
    let bytes = raw_bytes(3);
    let mut node = RawNode::from_bytes(&bytes).unwrap();
    assert_eq!(node.hash(), &[0; 20]);
    assert_eq!(node.kv_hash(), &[1; 20]);
    assert_eq!(&node.parent_key()[..], &[2; 80][..]);
    assert_eq!(&node.left_key()[..], &[3; 80][..]);
    assert_eq!(&node.right_key()[..], &[4; 80][..]);
    assert_eq!(node.left_height(), 5);
    assert_eq!(node.right_height(), 6);
    assert_eq!(node.value(), &[0, 1, 2]);
    *node.right_height_mut() += 10;
    assert_eq!(node.right_height(), 16);
    node.value_mut()[0] = 9;
    node.hash_mut()[0] = 42;
    assert_eq!(node.value(), &[9, 1, 2]);
    assert_eq!(node.hash()[0], 42);
    let out = node.to_bytes();
    assert_eq!(out.len(), RAWNODE_HEAD_LENGTH + 3);
    assert_eq!(out[0], 42);
    assert_eq!(out[281], 16);
    assert_eq!(out[282], 9);
}

#[test]
fn raw_node_round_trip() {
    let bytes = raw_bytes(5);
    let node = RawNode::from_bytes(&bytes).unwrap();
    assert_eq!(node.to_bytes(), bytes);
    let head_only = raw_bytes(0);
    assert_eq!(RawNode::from_bytes(&head_only).unwrap().value().len(), 0);
}

#[test]
fn raw_node_too_short() {
    let bytes = vec![0u8; RAWNODE_HEAD_LENGTH - 1];
    assert!(RawNode::from_bytes(&bytes).is_err());
}

#[test]
fn raw_it_works() {
    let mut bytes = vec![0u8; 20];
    bytes.extend_from_slice(&[1; 20]);
    bytes.extend_from_slice(&[2; 80]);
    bytes.extend_from_slice(&[3; 80]);
    bytes.extend_from_slice(&[4; 80]);
    bytes.extend_from_slice(&[5, 6]);
    {
        let mut node = RawNode::from_bytes(&bytes).unwrap();

        println!("{:?}", node.hash());
        println!("{:?}", node.kv_hash());
        println!("{:?}", &node.left_key()[..]);
        println!("{:?}", node.left_height());
        *node.right_height_mut() += 10;
        println!("{:?}", node.right_height());
        println!("{:?}", &node.value()[..]);
        assert_eq!(node.right_height(), 16);
        assert_eq!(node.value().len(), 0);
    }
    println!("{:?}", &bytes[..]);
}

#[test]
fn node_new_truncates_long_length_prefixes() {
    let key = vec![1u8; 300];
    let node = Node::new(&key, b"x");
    let mut data = vec![(300 % 256) as u8];
    data.extend_from_slice(&key);
    data.extend_from_slice(&[0, 1]);
    data.extend_from_slice(b"x");
    let expected = blake2_rfc::blake2b::blake2b(20, &[], &data);
    assert_eq!(&node.kv_hash[..], expected.as_bytes());
}

#[test]
fn balance_factor_reads_tall_heights_as_signed_bytes() {
    let mut node = Node::new(b"k", b"v");
    node.set_child(false, Some(Link { key: b"r".to_vec(), hash: [1; 20], height: 200 }));
    assert_eq!(node.balance_factor(), -56);
    node.set_child(true, Some(Link { key: b"l".to_vec(), hash: [2; 20], height: 3 }));
    assert_eq!(node.balance_factor(), -59);
    let mut short = Node::new(b"k", b"v");
    short.set_child(false, Some(Link { key: b"r".to_vec(), hash: [1; 20], height: 5 }));
    short.set_child(true, Some(Link { key: b"l".to_vec(), hash: [2; 20], height: 2 }));
    assert_eq!(short.balance_factor(), 3);
}
