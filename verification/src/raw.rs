//! The fixed layout of a node as stored in the database: a head of fixed
//! fields (hashes, the parent's and children's keys padded to a fixed
//! length, the children's heights) followed by the value.
use vstd::prelude::*;

verus! {

/// Length in bytes of a stored hash.
pub const RAW_HASH_LENGTH: usize = 20;

/// Length in bytes of a stored key field.
pub const MAX_KEY_LENGTH: usize = 80;

/// Length in bytes of the head: two hashes, three keys and two heights.
pub const RAWNODE_HEAD_LENGTH: usize = 282;

/// A node in its stored layout.
#[derive(Debug)]
pub struct RawNode {
    hash: [u8; 20],
    kv_hash: [u8; 20],
    parent_key: [u8; 80],
    left_key: [u8; 80],
    right_key: [u8; 80],
    left_height: u8,
    right_height: u8,
    value: Vec<u8>,
}

/// The bytes given to `RawNode::from_bytes` are shorter than the head.
#[derive(Debug)]
pub struct FromBytesError();

/// The fields of a stored node.
pub struct RawNodeV {
    pub hash: Seq<u8>,
    pub kv_hash: Seq<u8>,
    pub parent_key: Seq<u8>,
    pub left_key: Seq<u8>,
    pub right_key: Seq<u8>,
    pub left_height: u8,
    pub right_height: u8,
    pub value: Seq<u8>,
}

impl View for RawNode {
    type V = RawNodeV;

    closed spec fn view(&self) -> RawNodeV {
        RawNodeV {
            hash: self.hash@,
            kv_hash: self.kv_hash@,
            parent_key: self.parent_key@,
            left_key: self.left_key@,
            right_key: self.right_key@,
            left_height: self.left_height,
            right_height: self.right_height,
            value: self.value@,
        }
    }
}

/// The stored bytes of a node: the head fields in order, then the value.
pub open spec fn layout(n: RawNodeV) -> Seq<u8> {
    n.hash + n.kv_hash + n.parent_key + n.left_key + n.right_key + seq![n.left_height, n.right_height]
        + n.value
}

/// The node stored in `bytes`, which must hold at least a head.
pub open spec fn parse(bytes: Seq<u8>) -> RawNodeV {
    RawNodeV {
        hash: bytes.subrange(0, 20),
        kv_hash: bytes.subrange(20, 40),
        parent_key: bytes.subrange(40, 120),
        left_key: bytes.subrange(120, 200),
        right_key: bytes.subrange(200, 280),
        left_height: bytes[280],
        right_height: bytes[281],
        value: bytes.subrange(282, bytes.len() as int),
    }
}

fn copy_array20(bytes: &[u8], start: usize) -> (a: [u8; 20])
    requires
        start + 20 <= bytes.len(),
    ensures
        a@ == bytes@.subrange(start as int, start + 20),
{
    let mut a = [0u8; 20];
    let mut i: usize = 0;
    while i < 20
        invariant
            start + 20 <= bytes.len(),
            0 <= i <= 20,
            forall|j: int| 0 <= j < i ==> a@[j] == bytes@[start + j],
        decreases 20 - i,
    {
        a[i] = bytes[start + i];
        i = i + 1;
    }
    assert(a@ =~= bytes@.subrange(start as int, start + 20));
    a
}

fn copy_array80(bytes: &[u8], start: usize) -> (a: [u8; 80])
    requires
        start + 80 <= bytes.len(),
    ensures
        a@ == bytes@.subrange(start as int, start + 80),
{
    let mut a = [0u8; 80];
    let mut i: usize = 0;
    while i < 80
        invariant
            start + 80 <= bytes.len(),
            0 <= i <= 80,
            forall|j: int| 0 <= j < i ==> a@[j] == bytes@[start + j],
        decreases 80 - i,
    {
        a[i] = bytes[start + i];
        i = i + 1;
    }
    assert(a@ =~= bytes@.subrange(start as int, start + 80));
    a
}

fn copy_range(bytes: &[u8], start: usize) -> (v: Vec<u8>)
    requires
        start <= bytes@.len(),
    ensures
        v@ == bytes@.subrange(start as int, bytes@.len() as int),
{
    let mut v: Vec<u8> = Vec::new();
    let mut i: usize = start;
    while i < bytes.len()
        invariant
            start <= i <= bytes@.len(),
            v@ == bytes@.subrange(start as int, i as int),
        decreases bytes@.len() - i,
    {
        v.push(bytes[i]);
        i = i + 1;
        assert(v@ =~= bytes@.subrange(start as int, i as int));
    }
    v
}

impl RawNode {
    /// Reads a node from its stored bytes. Fails when there are fewer bytes
    /// than a head; the bytes after the head are the value.
    pub fn from_bytes(bytes: &[u8]) -> (r: Result<RawNode, FromBytesError>)
        ensures
            r is Err <==> bytes@.len() < RAWNODE_HEAD_LENGTH,
            r matches Ok(n) ==> n@ == parse(bytes@),
    {
        if bytes.len() < RAWNODE_HEAD_LENGTH {
            Err(FromBytesError())
        } else {
            Ok(
                RawNode {
                    hash: copy_array20(bytes, 0),
                    kv_hash: copy_array20(bytes, 20),
                    parent_key: copy_array80(bytes, 40),
                    left_key: copy_array80(bytes, 120),
                    right_key: copy_array80(bytes, 200),
                    left_height: bytes[280],
                    right_height: bytes[281],
                    value: copy_range(bytes, 282),
                },
            )
        }
    }

    /// Writes the node in its stored layout.
    pub fn to_bytes(&self) -> (b: Vec<u8>)
        ensures
            b@ == layout(self@),
    {
        let mut b: Vec<u8> = Vec::new();
        crate::hash::push_all(&mut b, &self.hash);
        crate::hash::push_all(&mut b, &self.kv_hash);
        crate::hash::push_all(&mut b, &self.parent_key);
        crate::hash::push_all(&mut b, &self.left_key);
        crate::hash::push_all(&mut b, &self.right_key);
        b.push(self.left_height);
        b.push(self.right_height);
        crate::hash::push_all(&mut b, self.value.as_slice());
        assert(b@ =~= layout(self@));
        b
    }

    /// The node's hash.
    pub fn hash(&self) -> (r: &[u8; 20])
        ensures
            r@ == self@.hash,
    {
        &self.hash
    }

    /// The node's hash, to be changed in place.
    pub fn hash_mut(&mut self) -> (r: &mut [u8; 20])
        ensures
            r@ == old(self)@.hash,
            final(self)@ == (RawNodeV { hash: final(r)@, ..old(self)@ }),
    {
        &mut self.hash
    }

    /// The hash of the node's key/value pair.
    pub fn kv_hash(&self) -> (r: &[u8; 20])
        ensures
            r@ == self@.kv_hash,
    {
        &self.kv_hash
    }

    /// The hash of the key/value pair, to be changed in place.
    pub fn kv_hash_mut(&mut self) -> (r: &mut [u8; 20])
        ensures
            r@ == old(self)@.kv_hash,
            final(self)@ == (RawNodeV { kv_hash: final(r)@, ..old(self)@ }),
    {
        &mut self.kv_hash
    }

    /// The parent's key field.
    pub fn parent_key(&self) -> (r: &[u8; 80])
        ensures
            r@ == self@.parent_key,
    {
        &self.parent_key
    }

    /// The parent's key field, to be changed in place.
    pub fn parent_key_mut(&mut self) -> (r: &mut [u8; 80])
        ensures
            r@ == old(self)@.parent_key,
            final(self)@ == (RawNodeV { parent_key: final(r)@, ..old(self)@ }),
    {
        &mut self.parent_key
    }

    /// The left child's key field.
    pub fn left_key(&self) -> (r: &[u8; 80])
        ensures
            r@ == self@.left_key,
    {
        &self.left_key
    }

    /// The left child's key field, to be changed in place.
    pub fn left_key_mut(&mut self) -> (r: &mut [u8; 80])
        ensures
            r@ == old(self)@.left_key,
            final(self)@ == (RawNodeV { left_key: final(r)@, ..old(self)@ }),
    {
        &mut self.left_key
    }

    /// The right child's key field.
    pub fn right_key(&self) -> (r: &[u8; 80])
        ensures
            r@ == self@.right_key,
    {
        &self.right_key
    }

    /// The right child's key field, to be changed in place.
    pub fn right_key_mut(&mut self) -> (r: &mut [u8; 80])
        ensures
            r@ == old(self)@.right_key,
            final(self)@ == (RawNodeV { right_key: final(r)@, ..old(self)@ }),
    {
        &mut self.right_key
    }

    /// The right child's height.
    pub fn right_height(&self) -> (h: u8)
        ensures
            h == self@.right_height,
    {
        self.right_height
    }

    /// The right child's height, to be changed in place.
    pub fn right_height_mut(&mut self) -> (r: &mut u8)
        ensures
            *r == old(self)@.right_height,
            final(self)@ == (RawNodeV { right_height: *final(r), ..old(self)@ }),
    {
        &mut self.right_height
    }

    /// The left child's height.
    pub fn left_height(&self) -> (h: u8)
        ensures
            h == self@.left_height,
    {
        self.left_height
    }

    /// The left child's height, to be changed in place.
    pub fn left_height_mut(&mut self) -> (r: &mut u8)
        ensures
            *r == old(self)@.left_height,
            final(self)@ == (RawNodeV { left_height: *final(r), ..old(self)@ }),
    {
        &mut self.left_height
    }

    /// The value.
    pub fn value(&self) -> (v: &[u8])
        ensures
            v@ == self@.value,
    {
        self.value.as_slice()
    }

    /// The value, to be changed in place.
    pub fn value_mut(&mut self) -> (v: &mut [u8])
        ensures
            v@ == old(self)@.value,
            final(self)@ == (RawNodeV { value: final(v)@, ..old(self)@ }),
    {
        self.value.as_mut_slice()
    }
}

/// Reading a node back from the bytes it is written as gives the node.
pub proof fn lemma_layout_parse(n: RawNodeV)
    requires
        n.hash.len() == 20,
        n.kv_hash.len() == 20,
        n.parent_key.len() == 80,
        n.left_key.len() == 80,
        n.right_key.len() == 80,
    ensures
        layout(n).len() >= RAWNODE_HEAD_LENGTH,
        parse(layout(n)) == n,
{
    let b = layout(n);
    assert(parse(b).hash =~= n.hash);
    assert(parse(b).kv_hash =~= n.kv_hash);
    assert(parse(b).parent_key =~= n.parent_key);
    assert(parse(b).left_key =~= n.left_key);
    assert(parse(b).right_key =~= n.right_key);
    assert(parse(b).value =~= n.value);
}

/// Writing out a node read from bytes gives the bytes back.
pub proof fn lemma_parse_layout(bytes: Seq<u8>)
    requires
        bytes.len() >= RAWNODE_HEAD_LENGTH,
    ensures
        layout(parse(bytes)) == bytes,
{
    assert(layout(parse(bytes)) =~= bytes);
}

} // verus!
