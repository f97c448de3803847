use merk::proofs::{Node, Op};
use merk::HASH_LENGTH;

#[test]
fn encode_push_hash() {
    let op = Op::Push(Node::Hash([123; HASH_LENGTH]));
    assert_eq!(op.encoding_length(), 1 + HASH_LENGTH);

    let mut bytes = vec![];
    op.encode_into(&mut bytes);
    assert_eq!(
        bytes,
        vec![
            0x01, 123, 123, 123, 123, 123, 123, 123, 123, 123, 123, 123, 123, 123, 123, 123, 123,
            123, 123, 123, 123, 123, 123, 123, 123, 123, 123, 123, 123, 123, 123, 123, 123
        ]
    );
}

#[test]
fn encode_push_kvhash() {
    let op = Op::Push(Node::KVHash([123; HASH_LENGTH]));
    assert_eq!(op.encoding_length(), 1 + HASH_LENGTH);

    let mut bytes = vec![];
    op.encode_into(&mut bytes);
    assert_eq!(
        bytes,
        vec![
            0x02, 123, 123, 123, 123, 123, 123, 123, 123, 123, 123, 123, 123, 123, 123, 123, 123,
            123, 123, 123, 123, 123, 123, 123, 123, 123, 123, 123, 123, 123, 123, 123, 123
        ]
    );
}

#[test]
fn encode_push_kv() {
    let op = Op::Push(Node::KV(vec![1, 2, 3], vec![4, 5, 6]));
    assert_eq!(op.encoding_length(), 10);

    let mut bytes = vec![];
    op.encode_into(&mut bytes);
    assert_eq!(bytes, vec![0x03, 3, 1, 2, 3, 0, 3, 4, 5, 6]);
}

#[test]
fn encode_parent() {
    let op = Op::Parent;
    assert_eq!(op.encoding_length(), 1);

    let mut bytes = vec![];
    op.encode_into(&mut bytes);
    assert_eq!(bytes, vec![0x10]);
}

#[test]
fn encode_child() {
    let op = Op::Child;
    assert_eq!(op.encoding_length(), 1);

    let mut bytes = vec![];
    op.encode_into(&mut bytes);
    assert_eq!(bytes, vec![0x11]);
}

#[test]
fn decode_push_hash() {
    let bytes = [
        0x01, 123, 123, 123, 123, 123, 123, 123, 123, 123, 123, 123, 123, 123, 123, 123, 123, 123,
        123, 123, 123, 123, 123, 123, 123, 123, 123, 123, 123, 123, 123, 123, 123,
    ];
    let op = Op::decode(&bytes[..]).expect("decode failed");
    assert_eq!(op, Op::Push(Node::Hash([123; HASH_LENGTH])));
}

#[test]
fn decode_push_kvhash() {
    let bytes = [
        0x02, 123, 123, 123, 123, 123, 123, 123, 123, 123, 123, 123, 123, 123, 123, 123, 123, 123,
        123, 123, 123, 123, 123, 123, 123, 123, 123, 123, 123, 123, 123, 123, 123,
    ];
    let op = Op::decode(&bytes[..]).expect("decode failed");
    assert_eq!(op, Op::Push(Node::KVHash([123; HASH_LENGTH])));
}

#[test]
fn decode_push_kv() {
    let bytes = [0x03, 3, 1, 2, 3, 0, 3, 4, 5, 6];
    let op = Op::decode(&bytes[..]).expect("decode failed");
    assert_eq!(op, Op::Push(Node::KV(vec![1, 2, 3], vec![4, 5, 6])));
}

#[test]
fn decode_parent() {
    let bytes = [0x10];
    let op = Op::decode(&bytes[..]).expect("decode failed");
    assert_eq!(op, Op::Parent);
}

#[test]
fn decode_child() {
    let bytes = [0x11];
    let op = Op::decode(&bytes[..]).expect("decode failed");
    assert_eq!(op, Op::Child);
}

#[test]
fn decode_unknown() {
    let bytes = [0x88];
    assert!(Op::decode(&bytes[..]).is_err());
}
