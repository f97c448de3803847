//! Node hashes: SHA-512/256 over a framing of the node's key, value and
//! children.
use sha2::Digest;
use vstd::prelude::*;

verus! {

/// Length in bytes of a node hash.
pub const HASH_LENGTH: usize = 32;

/// A node hash.
pub type Hash = [u8; 32];

/// The result of SHA-512/256 on a byte string.
pub uninterp spec fn sha512_256(data: Seq<u8>) -> Seq<u8>;

/// Computes SHA-512/256 with the `sha2` crate's `Sha512_256::digest`. Trusted:
/// the result is the digest of `data`, named `sha512_256`.
#[verifier::external_body]
fn digest(data: &[u8]) -> (h: [u8; 32])
    ensures
        h@ == sha512_256(data@),
{
    let out = sha2::Sha512_256::digest(data);
    let mut h = [0u8; 32];
    h.copy_from_slice(out.as_slice());
    h
}

/// The hash of an empty subtree: 32 zero bytes.
pub open spec fn null_hash_spec() -> Seq<u8> {
    Seq::new(32, |i: int| 0u8)
}

/// Returns the hash of an empty subtree (all zeros).
pub fn null_hash() -> (h: [u8; 32])
    ensures
        h@ == null_hash_spec(),
{
    let h = [0u8; 32];
    assert(h@ =~= null_hash_spec());
    h
}

/// The four little-endian bytes of `n`.
pub open spec fn u32_le(n: nat) -> Seq<u8> {
    seq![
        (n % 256) as u8,
        ((n / 256) % 256) as u8,
        ((n / 65536) % 256) as u8,
        ((n / 16777216) % 256) as u8,
    ]
}

/// The bytes that are hashed to give the hash of a key/value pair.
pub open spec fn kv_preimage(key: Seq<u8>, value: Seq<u8>) -> Seq<u8> {
    seq![0u8] + u32_le(key.len()) + key + u32_le(value.len()) + value
}

/// The hash of a key/value pair.
pub open spec fn kv_hash_spec(key: Seq<u8>, value: Seq<u8>) -> Seq<u8> {
    sha512_256(kv_preimage(key, value))
}

/// Whether a key/value pair can be hashed: both lengths must fit in 32 bits.
pub open spec fn kv_hashable(key: Seq<u8>, value: Seq<u8>) -> bool {
    key.len() <= u32::MAX && value.len() <= u32::MAX
}

/// The hash of a node, given its key/value hash and its children's hashes.
pub open spec fn node_hash_spec(kv: Seq<u8>, left: Seq<u8>, right: Seq<u8>) -> Seq<u8> {
    sha512_256(seq![1u8] + kv + left + right)
}

fn push_u32_le(out: &mut Vec<u8>, n: usize)
    requires
        n <= u32::MAX,
    ensures
        final(out)@ == old(out)@ + u32_le(n as nat),
{
    out.push((n % 256) as u8);
    out.push(((n / 256) % 256) as u8);
    out.push(((n / 65536) % 256) as u8);
    out.push(((n / 16777216) % 256) as u8);
    assert(final(out)@ =~= old(out)@ + u32_le(n as nat));
}

pub(crate) fn push_all(out: &mut Vec<u8>, data: &[u8])
    ensures
        final(out)@ == old(out)@ + data@,
{
    let mut i: usize = 0;
    while i < data.len()
        invariant
            i <= data@.len(),
            out@ == old(out)@ + data@.subrange(0, i as int),
        decreases data@.len() - i,
    {
        out.push(data[i]);
        assert(data@.subrange(0, i + 1) =~= data@.subrange(0, i as int).push(data@[i as int]));
        i = i + 1;
    }
    assert(data@.subrange(0, data@.len() as int) =~= data@);
}

/// Hashes a key/value pair. Fails when the key or the value is longer than
/// `u32::MAX` bytes.
pub fn kv_hash(key: &[u8], value: &[u8]) -> (r: Result<[u8; 32], crate::error::Error>)
    ensures
        r is Ok <==> kv_hashable(key@, value@),
        r matches Ok(h) ==> h@ == kv_hash_spec(key@, value@),
        r matches Err(e) ==> e is Overflow,
{
    if key.len() > 4294967295usize || value.len() > 4294967295usize {
        return Err(crate::error::Error::Overflow("key or value longer than u32::MAX bytes".to_owned()));
    }
    let mut data: Vec<u8> = Vec::new();
    data.push(0u8);
    push_u32_le(&mut data, key.len());
    push_all(&mut data, key);
    push_u32_le(&mut data, value.len());
    push_all(&mut data, value);
    assert(data@ =~= kv_preimage(key@, value@));
    Ok(digest(data.as_slice()))
}

/// Hashes a node from its key/value hash and its children's hashes.
pub fn node_hash(kv: &[u8; 32], left: &[u8; 32], right: &[u8; 32]) -> (h: [u8; 32])
    ensures
        h@ == node_hash_spec(kv@, left@, right@),
{
    let mut data: Vec<u8> = Vec::new();
    data.push(1u8);
    push_all(&mut data, kv);
    push_all(&mut data, left);
    push_all(&mut data, right);
    assert(data@ =~= seq![1u8] + kv@ + left@ + right@);
    digest(data.as_slice())
}

/// Whether two hashes are equal.
pub fn hash_eq(a: &[u8; 32], b: &[u8; 32]) -> (r: bool)
    ensures
        r == (a@ == b@),
{
    crate::bytes::bytes_eq(a, b)
}

} // verus!
