//! Merkle proofs: the operators a proof is made of, their byte encoding, the
//! tree a proof describes, and the checks that verify a proof against a
//! root hash.
pub mod encoding;

use vstd::prelude::*;

pub mod query;
pub mod tree;
pub mod verify;
pub use encoding::{encode_into, Decoder};
pub use query::Query;
pub use tree::Tree;

verus! {

/// A proof operator, executed to verify the data in a Merkle proof.
#[derive(Debug, PartialEq, Clone)]
pub enum Op {
    /// Pushes a node on the stack.
    Push(Node),
    /// Pops the top stack item as `parent`. Pops the next top stack item as
    /// `child`. Attaches `child` as the left child of `parent`. Pushes the
    /// updated `parent` back on the stack.
    Parent,
    /// Pops the top stack item as `child`. Pops the next top stack item as
    /// `parent`. Attaches `child` as the right child of `parent`. Pushes the
    /// updated `parent` back on the stack.
    Child,
}

/// A selected piece of data about a single tree node, to be contained in a
/// `Push` operator in a proof.
#[derive(Debug, PartialEq, Clone)]
pub enum Node {
    /// The hash of a tree node.
    Hash([u8; 32]),
    /// The hash of the key/value pair of a tree node.
    KVHash([u8; 32]),
    /// The key and value of a tree node.
    KV(Vec<u8>, Vec<u8>),
}

/// The mathematical value of a `Node`.
pub enum NodeV {
    Hash(Seq<u8>),
    KVHash(Seq<u8>),
    KV(Seq<u8>, Seq<u8>),
}

/// The mathematical value of an `Op`.
pub enum OpV {
    Push(NodeV),
    Parent,
    Child,
}

impl View for Node {
    type V = NodeV;

    open spec fn view(&self) -> NodeV {
        match self {
            Node::Hash(h) => NodeV::Hash(h@),
            Node::KVHash(h) => NodeV::KVHash(h@),
            Node::KV(k, v) => NodeV::KV(k@, v@),
        }
    }
}

impl View for Op {
    type V = OpV;

    open spec fn view(&self) -> OpV {
        match self {
            Op::Push(n) => OpV::Push(n@),
            Op::Parent => OpV::Parent,
            Op::Child => OpV::Child,
        }
    }
}

/// The view of each operator of a sequence.
pub open spec fn ops_view(ops: Seq<Op>) -> Seq<OpV> {
    ops.map_values(|op: Op| op@)
}

impl Op {
    /// Returns a copy of this operator.
    pub fn copy(&self) -> (r: Op)
        ensures
            r@ == self@,
    {
        match self {
            Op::Push(n) => Op::Push(n.copy()),
            Op::Parent => Op::Parent,
            Op::Child => Op::Child,
        }
    }
}

impl Node {
    /// Returns a copy of this node.
    pub fn copy(&self) -> (r: Node)
        ensures
            r@ == self@,
    {
        match self {
            Node::Hash(h) => Node::Hash(*h),
            Node::KVHash(h) => Node::KVHash(*h),
            Node::KV(k, v) => Node::KV(
                crate::bytes::copy_bytes(k.as_slice()),
                crate::bytes::copy_bytes(v.as_slice()),
            ),
        }
    }
}

} // verus!
