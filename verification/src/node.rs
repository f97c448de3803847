//! Stored tree nodes: a key/value pair with its hash, and links to the
//! children carrying their key, hash and height. Hashes here are 20-byte
//! BLAKE2b digests.
use vstd::prelude::*;

use crate::bytes::copy_bytes;
use crate::hash::push_all;

verus! {

/// Length in bytes of a stored node's hash.
pub const HASH_LENGTH: usize = 20;

/// The 20-byte BLAKE2b digest (no key) of a byte string.
pub uninterp spec fn blake2b_160(data: Seq<u8>) -> Seq<u8>;

/// Computes the unkeyed BLAKE2b digest with a 20-byte output, through
/// `blake2_rfc::blake2b::blake2b`. Trusted: the result is the digest of
/// `data`, named `blake2b_160`.
#[verifier::external_body]
fn blake2b(data: &[u8]) -> (h: [u8; 20])
    ensures
        h@ == blake2b_160(data@),
{
    let res = blake2_rfc::blake2b::blake2b(20, &[], data);
    let mut h = [0u8; 20];
    h.copy_from_slice(res.as_bytes());
    h
}

/// The hash that stands for a missing child: 20 zero bytes.
pub open spec fn null_hash_spec() -> Seq<u8> {
    Seq::new(20, |i: int| 0u8)
}

/// Returns the hash that stands for a missing child.
pub fn null_hash() -> (h: [u8; 20])
    ensures
        h@ == null_hash_spec(),
{
    let h = [0u8; 20];
    assert(h@ =~= null_hash_spec());
    h
}

/// The bytes hashed for a key/value pair: the key's length in one byte, the
/// key, the value's length in two big-endian bytes, and the value. Lengths
/// that do not fit are cut to their low byte (key) or two low bytes (value).
pub open spec fn kv_preimage(key: Seq<u8>, value: Seq<u8>) -> Seq<u8> {
    seq![(key.len() % 256) as u8] + key + seq![((value.len() % 65536) / 256) as u8, (value.len() % 256) as u8]
        + value
}

/// The hash of a key/value pair.
pub open spec fn kv_hash_spec(key: Seq<u8>, value: Seq<u8>) -> Seq<u8> {
    blake2b_160(kv_preimage(key, value))
}

/// The hash of a node: its key/value hash followed by its children's hashes.
pub open spec fn node_hash_spec(kv: Seq<u8>, left: Seq<u8>, right: Seq<u8>) -> Seq<u8> {
    blake2b_160(kv + left + right)
}

/// A reference to another tree node, which need not be in memory: it can be
/// fetched by its key.
#[derive(Debug)]
pub struct Link {
    pub key: Vec<u8>,
    pub hash: [u8; 20],
    pub height: u8,
}

/// A tree node and its key/value pair.
#[derive(Debug)]
pub struct Node {
    pub key: Vec<u8>,
    pub value: Vec<u8>,
    pub kv_hash: [u8; 20],
    pub parent_key: Option<Vec<u8>>,
    pub left: Option<Link>,
    pub right: Option<Link>,
}

/// The hash recorded by a link, or the null hash where there is none.
pub open spec fn link_hash(l: Option<Link>) -> Seq<u8> {
    match l {
        Some(l) => l.hash@,
        None => null_hash_spec(),
    }
}

/// The height recorded by a link, or 0 where there is none.
pub open spec fn link_height(l: Option<Link>) -> u8 {
    match l {
        Some(l) => l.height,
        None => 0,
    }
}

/// A byte read as a signed byte: a value above 127 stands for itself
/// minus 256.
pub open spec fn signed_height(h: u8) -> int {
    if h < 128 {
        h as int
    } else {
        h - 256
    }
}

proof fn lemma_signed_byte(x: u8)
    ensures
        (x as i8) as int == signed_height(x),
{
    assert(x < 128 ==> (x as i8) as int == x as int) by (bit_vector);
    assert(x >= 128 ==> (x as i8) as int == x as int - 256) by (bit_vector);
}

impl Node {
    /// The link on the given side.
    pub open spec fn link(self, left: bool) -> Option<Link> {
        if left {
            self.left
        } else {
            self.right
        }
    }

    /// The node's hash, from its fields.
    pub open spec fn hash_spec(self) -> Seq<u8> {
        node_hash_spec(self.kv_hash@, link_hash(self.left), link_hash(self.right))
    }

    /// The node's height: one more than its taller child's.
    pub open spec fn height_spec(self) -> int {
        1 + if link_height(self.left) >= link_height(self.right) {
            link_height(self.left)
        } else {
            link_height(self.right)
        }
    }

    /// Creates a node holding `key` and `value`, with no children.
    pub fn new(key: &[u8], value: &[u8]) -> (n: Node)
        ensures
            n.key@ == key@,
            n.value@ == value@,
            n.kv_hash@ == kv_hash_spec(key@, value@),
            n.parent_key is None,
            n.left is None,
            n.right is None,
    {
        let mut node = Node {
            key: copy_bytes(key),
            value: copy_bytes(value),
            kv_hash: [0u8; 20],
            parent_key: None,
            left: None,
            right: None,
        };
        node.update_kv_hash();
        node
    }

    /// Recomputes the hash of the key/value pair.
    pub fn update_kv_hash(&mut self)
        ensures
            final(self).kv_hash@ == kv_hash_spec(old(self).key@, old(self).value@),
            final(self).key == old(self).key,
            final(self).value == old(self).value,
            final(self).parent_key == old(self).parent_key,
            final(self).left == old(self).left,
            final(self).right == old(self).right,
    {
        let key_len = self.key.len();
        let value_len = self.value.len();
        let mut data: Vec<u8> = Vec::new();
        data.push((key_len % 256) as u8);
        push_all(&mut data, self.key.as_slice());
        data.push(((value_len % 65536) / 256) as u8);
        data.push((value_len % 256) as u8);
        push_all(&mut data, self.value.as_slice());
        assert(data@ =~= kv_preimage(self.key@, self.value@));
        self.kv_hash = blake2b(data.as_slice());
    }

    /// The node's hash: the hash of its key/value hash and its children's
    /// hashes (the null hash for a missing child).
    pub fn hash(&self) -> (h: [u8; 20])
        ensures
            h@ == self.hash_spec(),
    {
        let left = match &self.left {
            Some(l) => l.hash,
            None => null_hash(),
        };
        let right = match &self.right {
            Some(l) => l.hash,
            None => null_hash(),
        };
        let mut data: Vec<u8> = Vec::new();
        push_all(&mut data, &self.kv_hash);
        push_all(&mut data, &left);
        push_all(&mut data, &right);
        assert(data@ =~= self.kv_hash@ + link_hash(self.left) + link_hash(self.right));
        blake2b(data.as_slice())
    }

    /// The link on the given side.
    pub fn child_link(&self, left: bool) -> (l: &Option<Link>)
        ensures
            *l == self.link(left),
    {
        if left {
            &self.left
        } else {
            &self.right
        }
    }

    /// The height recorded for the child on the given side (0 if none).
    pub fn child_height(&self, left: bool) -> (h: u8)
        ensures
            h == link_height(self.link(left)),
    {
        match self.child_link(left) {
            Some(link) => link.height,
            None => 0,
        }
    }

    /// The node's height: one more than its taller child's.
    pub fn height(&self) -> (h: u8)
        requires
            self.height_spec() <= u8::MAX,
        ensures
            h == self.height_spec(),
    {
        let l = self.child_height(true);
        let r = self.child_height(false);
        if l >= r {
            l + 1
        } else {
            r + 1
        }
    }

    /// The right child's height minus the left child's, each height taken
    /// as a signed byte (a height above 127 reads as that height minus 256).
    pub fn balance_factor(&self) -> (b: i8)
        requires
            i8::MIN <= signed_height(link_height(self.right)) - signed_height(link_height(self.left)) <= i8::MAX,
        ensures
            b == signed_height(link_height(self.right)) - signed_height(link_height(self.left)),
    {
        let r = self.child_height(false);
        let l = self.child_height(true);
        proof {
            lemma_signed_byte(r);
            lemma_signed_byte(l);
        }
        r as i8 - l as i8
    }

    /// A link to this node, with its key, hash and height.
    pub fn as_link(&self) -> (l: Link)
        requires
            self.height_spec() <= u8::MAX,
        ensures
            l.key@ == self.key@,
            l.hash@ == self.hash_spec(),
            l.height == self.height_spec(),
    {
        Link { key: copy_bytes(self.key.as_slice()), hash: self.hash(), height: self.height() }
    }

    /// Sets the link on the given side.
    pub fn set_child(&mut self, left: bool, link: Option<Link>)
        ensures
            final(self).link(left) == link,
            final(self).link(!left) == old(self).link(!left),
            final(self).key == old(self).key,
            final(self).value == old(self).value,
            final(self).kv_hash == old(self).kv_hash,
            final(self).parent_key == old(self).parent_key,
    {
        if left {
            self.left = link;
        } else {
            self.right = link;
        }
    }

    /// Records a parent key on the node. The key recorded is the node's own
    /// key; the argument is not used.
    pub fn set_parent(&mut self, parent_key: Vec<u8>)
        ensures
            final(self).parent_key matches Some(k) && k@ == old(self).key@,
            final(self).key == old(self).key,
            final(self).value == old(self).value,
            final(self).kv_hash == old(self).kv_hash,
            final(self).left == old(self).left,
            final(self).right == old(self).right,
    {
        self.parent_key = Some(copy_bytes(self.key.as_slice()));
    }

    /// Replaces the value and recomputes the key/value hash.
    pub fn set_value(&mut self, value: &[u8])
        ensures
            final(self).value@ == value@,
            final(self).kv_hash@ == kv_hash_spec(old(self).key@, value@),
            final(self).key == old(self).key,
            final(self).parent_key == old(self).parent_key,
            final(self).left == old(self).left,
            final(self).right == old(self).right,
    {
        self.value = copy_bytes(value);
        self.update_kv_hash();
    }
}

} // verus!
