//! The byte encoding of proof operators.
//!
//! `Push(Hash(h))` is `0x01` followed by the 32 bytes of `h`; `Push(KVHash(h))`
//! is `0x02` followed by `h`; `Push(KV(k, v))` is `0x03`, the length of `k` as
//! one byte, `k`, the length of `v` as two big-endian bytes, and `v`; `Parent`
//! is `0x10` and `Child` is `0x11`.
use vstd::prelude::*;

use super::{ops_view, Node, NodeV, Op, OpV};
use crate::error::{DecodeError, Error};

verus! {

/// Whether an operator can be encoded: a key must be shorter than 256 bytes
/// and a value shorter than 65536 bytes.
pub open spec fn encodable(op: OpV) -> bool {
    match op {
        OpV::Push(NodeV::KV(k, v)) => k.len() < 256 && v.len() < 65536,
        OpV::Push(NodeV::Hash(h)) => h.len() == 32,
        OpV::Push(NodeV::KVHash(h)) => h.len() == 32,
        _ => true,
    }
}

/// Whether every operator of a sequence can be encoded.
pub open spec fn all_encodable(ops: Seq<OpV>) -> bool {
    forall|i: int| 0 <= i < ops.len() ==> encodable(#[trigger] ops[i])
}

/// The bytes of one encoded operator.
pub open spec fn op_bytes(op: OpV) -> Seq<u8> {
    match op {
        OpV::Push(NodeV::Hash(h)) => seq![1u8] + h,
        OpV::Push(NodeV::KVHash(h)) => seq![2u8] + h,
        OpV::Push(NodeV::KV(k, v)) => seq![3u8, k.len() as u8] + k + seq![
            (v.len() / 256) as u8,
            (v.len() % 256) as u8,
        ] + v,
        OpV::Parent => seq![16u8],
        OpV::Child => seq![17u8],
    }
}

/// The number of bytes of an encoded operator.
pub open spec fn op_len(op: OpV) -> nat {
    match op {
        OpV::Push(NodeV::Hash(_)) => 33,
        OpV::Push(NodeV::KVHash(_)) => 33,
        OpV::Push(NodeV::KV(k, v)) => 4 + k.len() + v.len(),
        OpV::Parent => 1,
        OpV::Child => 1,
    }
}

/// The bytes of a sequence of encoded operators, one after the other.
pub open spec fn ops_bytes(ops: Seq<OpV>) -> Seq<u8>
    decreases ops.len(),
{
    if ops.len() == 0 {
        Seq::empty()
    } else {
        op_bytes(ops[0]) + ops_bytes(ops.drop_first())
    }
}

/// What decoding one operator from the front of `b` gives.
#[verifier::opaque]
pub open spec fn decode_spec(b: Seq<u8>) -> Result<OpV, DecodeError> {
    if b.len() == 0 {
        Err(DecodeError::UnexpectedEof)
    } else if b[0] == 1 || b[0] == 2 {
        if b.len() < 33 {
            Err(DecodeError::UnexpectedEof)
        } else if b[0] == 1 {
            Ok(OpV::Push(NodeV::Hash(b.subrange(1, 33))))
        } else {
            Ok(OpV::Push(NodeV::KVHash(b.subrange(1, 33))))
        }
    } else if b[0] == 3 {
        if b.len() < 2 {
            Err(DecodeError::UnexpectedEof)
        } else {
            let kl = b[1] as int;
            if b.len() < 4 + kl {
                Err(DecodeError::UnexpectedEof)
            } else {
                let vl = b[2 + kl] as int * 256 + b[3 + kl] as int;
                if b.len() < 4 + kl + vl {
                    Err(DecodeError::UnexpectedEof)
                } else {
                    Ok(OpV::Push(NodeV::KV(b.subrange(2, 2 + kl), b.subrange(4 + kl, 4 + kl + vl))))
                }
            }
        }
    } else if b[0] == 16 {
        Ok(OpV::Parent)
    } else if b[0] == 17 {
        Ok(OpV::Child)
    } else {
        Err(DecodeError::UnexpectedByte(b[0]))
    }
}

/// Decoding an encoded operator, followed by any bytes, gives the operator
/// back.
pub proof fn lemma_decode_op_bytes(op: OpV, rest: Seq<u8>)
    requires
        encodable(op),
    ensures
        decode_spec(op_bytes(op) + rest) == Ok::<OpV, DecodeError>(op),
        op_bytes(op).len() == op_len(op),
{
    reveal(decode_spec);
    let b = op_bytes(op) + rest;
    match op {
        OpV::Push(NodeV::Hash(h)) => {
            assert(b.subrange(1, 33) =~= h);
        },
        OpV::Push(NodeV::KVHash(h)) => {
            assert(b.subrange(1, 33) =~= h);
        },
        OpV::Push(NodeV::KV(k, v)) => {
            let kl = k.len() as int;
            assert(b[1] == kl as u8);
            assert(b[1] as int == kl);
            assert(b[2 + kl] == (v.len() / 256) as u8);
            assert(b[3 + kl] == (v.len() % 256) as u8);
            assert(b[2 + kl] as int * 256 + b[3 + kl] as int == v.len());
            assert(b.subrange(2, 2 + kl) =~= k);
            assert(b.subrange(4 + kl, 4 + kl + v.len()) =~= v);
        },
        OpV::Parent => {},
        OpV::Child => {},
    }
}

/// Decoding a stream of operators: the operators read before the first
/// error, and that error, if any.
#[verifier::opaque]
pub open spec fn decode_stream(b: Seq<u8>) -> (Seq<OpV>, Option<DecodeError>)
    decreases b.len(),
{
    if b.len() == 0 {
        (Seq::empty(), None)
    } else {
        match decode_spec(b) {
            Err(e) => (Seq::empty(), Some(e)),
            Ok(op) => {
                if op_len(op) <= b.len() && op_len(op) > 0 {
                    let rest = decode_stream(b.skip(op_len(op) as int));
                    (seq![op] + rest.0, rest.1)
                } else {
                    (Seq::empty(), None)
                }
            },
        }
    }
}

/// A successful decode consumes exactly `op_len` bytes, all of them present.
pub proof fn lemma_decode_len(b: Seq<u8>)
    requires
        decode_spec(b) is Ok,
    ensures
        0 < op_len(decode_spec(b)->Ok_0) <= b.len(),
{
    reveal(decode_spec);
}

/// Decoding the encoding of a sequence of operators gives the sequence back,
/// with no error.
pub proof fn lemma_decode_stream_ops_bytes(ops: Seq<OpV>)
    requires
        all_encodable(ops),
    ensures
        decode_stream(ops_bytes(ops)) == (ops, Option::<DecodeError>::None),
    decreases ops.len(),
{
    reveal(decode_stream);
    if ops.len() > 0 {
        let b = ops_bytes(ops);
        let rest = ops_bytes(ops.drop_first());
        assert(all_encodable(ops.drop_first())) by {
            assert forall|i: int| 0 <= i < ops.drop_first().len() implies encodable(
                #[trigger] ops.drop_first()[i],
            ) by {
                assert(ops.drop_first()[i] == ops[i + 1]);
            }
        }
        assert(encodable(ops[0]));
        lemma_decode_op_bytes(ops[0], rest);
        assert(b.len() > 0) by {
            assert(op_bytes(ops[0]).len() > 0);
        }
        assert(b.skip(op_len(ops[0]) as int) =~= rest);
        lemma_decode_stream_ops_bytes(ops.drop_first());
        assert(seq![ops[0]] + ops.drop_first() =~= ops);
    } else {
        assert(ops_bytes(ops) =~= Seq::<u8>::empty());
    }
}

fn push_bytes(out: &mut Vec<u8>, data: &[u8])
    ensures
        final(out)@ == old(out)@ + data@,
{
    let mut i: usize = 0;
    while i < data.len()
        invariant
            i <= data@.len(),
            out@ == old(out)@ + data@.subrange(0, i as int),
        decreases data@.len() - i,
    {
        out.push(data[i]);
        assert(data@.subrange(0, i + 1) =~= data@.subrange(0, i as int).push(data@[i as int]));
        i = i + 1;
    }
    assert(data@.subrange(0, data@.len() as int) =~= data@);
}

impl Op {
    /// Appends the encoding of this operator to `dest`.
    pub fn encode_into(&self, dest: &mut Vec<u8>)
        requires
            encodable(self@),
        ensures
            final(dest)@ == old(dest)@ + op_bytes(self@),
    {
        match self {
            Op::Push(Node::Hash(hash)) => {
                dest.push(1u8);
                push_bytes(dest, hash);
            },
            Op::Push(Node::KVHash(kv_hash)) => {
                dest.push(2u8);
                push_bytes(dest, kv_hash);
            },
            Op::Push(Node::KV(key, value)) => {
                dest.push(3u8);
                dest.push(key.len() as u8);
                push_bytes(dest, key.as_slice());
                dest.push((value.len() / 256) as u8);
                dest.push((value.len() % 256) as u8);
                push_bytes(dest, value.as_slice());
            },
            Op::Parent => dest.push(16u8),
            Op::Child => dest.push(17u8),
        }
        assert(final(dest)@ =~= old(dest)@ + op_bytes(self@));
    }

    /// The number of bytes this operator takes once encoded.
    pub fn encoding_length(&self) -> (r: usize)
        requires
            encodable(self@),
        ensures
            r == op_len(self@),
    {
        match self {
            Op::Push(Node::Hash(_)) => 33,
            Op::Push(Node::KVHash(_)) => 33,
            Op::Push(Node::KV(key, value)) => 4 + key.len() + value.len(),
            Op::Parent => 1,
            Op::Child => 1,
        }
    }

    /// Decodes one operator from the front of `bytes`; bytes after it are
    /// ignored.
    pub fn decode(bytes: &[u8]) -> (r: Result<Op, Error>)
        ensures
            match decode_spec(bytes@) {
                Ok(op) => r matches Ok(o) && o@ == op,
                Err(e) => r matches Err(Error::Ed(d)) && d == e,
            },
            r matches Ok(o) ==> encodable(o@),
    {
        reveal(decode_spec);
        if bytes.len() == 0 {
            return Err(Error::Ed(DecodeError::UnexpectedEof));
        }
        let tag = bytes[0];
        if tag == 1 || tag == 2 {
            if bytes.len() < 33 {
                return Err(Error::Ed(DecodeError::UnexpectedEof));
            }
            let mut hash = [0u8; 32];
            let mut i: usize = 0;
            while i < 32
                invariant
                    i <= 32,
                    bytes@.len() >= 33,
                    forall|j: int| 0 <= j < i ==> hash@[j] == bytes@[1 + j],
                decreases 32 - i,
            {
                hash[i] = bytes[1 + i];
                i = i + 1;
            }
            assert(hash@ =~= bytes@.subrange(1, 33));
            if tag == 1 {
                Ok(Op::Push(Node::Hash(hash)))
            } else {
                Ok(Op::Push(Node::KVHash(hash)))
            }
        } else if tag == 3 {
            if bytes.len() < 2 {
                return Err(Error::Ed(DecodeError::UnexpectedEof));
            }
            let kl = bytes[1] as usize;
            if bytes.len() < 4 + kl {
                return Err(Error::Ed(DecodeError::UnexpectedEof));
            }
            let vl = bytes[2 + kl] as usize * 256 + bytes[3 + kl] as usize;
            if bytes.len() - (4 + kl) < vl {
                return Err(Error::Ed(DecodeError::UnexpectedEof));
            }
            let key = crate::bytes::copy_bytes(vstd::slice::slice_subrange(bytes, 2, 2 + kl));
            let value = crate::bytes::copy_bytes(
                vstd::slice::slice_subrange(bytes, 4 + kl, 4 + kl + vl),
            );
            Ok(Op::Push(Node::KV(key, value)))
        } else if tag == 16 {
            Ok(Op::Parent)
        } else if tag == 17 {
            Ok(Op::Child)
        } else {
            Err(Error::Ed(DecodeError::UnexpectedByte(tag)))
        }
    }
}

/// Appends the encoding of each operator, in order, to `output`.
pub fn encode_into(ops: &[Op], output: &mut Vec<u8>)
    requires
        all_encodable(ops_view(ops@)),
    ensures
        final(output)@ == old(output)@ + ops_bytes(ops_view(ops@)),
{
    let mut i: usize = 0;
    assert(ops@.skip(0) =~= ops@);
    while i < ops.len()
        invariant
            i <= ops@.len(),
            all_encodable(ops_view(ops@)),
            output@ + ops_bytes(ops_view(ops@.skip(i as int))) == old(output)@ + ops_bytes(
                ops_view(ops@),
            ),
        decreases ops@.len() - i,
    {
        assert(encodable(ops_view(ops@)[i as int]));
        let ghost before = output@;
        ops[i].encode_into(output);
        proof {
            let s = ops_view(ops@.skip(i as int));
            assert(s.len() > 0);
            assert(s[0] == ops[i as int]@);
            assert(s.drop_first() =~= ops_view(ops@.skip(i + 1)));
            assert(output@ + ops_bytes(s.drop_first()) =~= before + ops_bytes(s));
        }
        i = i + 1;
    }
    assert(ops@.skip(i as int) =~= Seq::<Op>::empty());
    assert(ops_bytes(ops_view(ops@.skip(i as int))) =~= Seq::<u8>::empty());
    assert(output@ =~= old(output)@ + ops_bytes(ops_view(ops@)));
}

/// Reads proof operators one at a time from a byte string.
pub struct Decoder<'a> {
    offset: usize,
    bytes: &'a [u8],
}

impl<'a> Decoder<'a> {
    /// The bytes that have not been read yet.
    pub closed spec fn remaining(&self) -> Seq<u8> {
        self.bytes@.skip(self.offset as int)
    }

    /// Whether a decode error has been returned (after which the decoder
    /// returns the same error again).
    pub closed spec fn wf(&self) -> bool {
        self.offset <= self.bytes@.len()
    }

    /// Creates a decoder that reads `proof_bytes` from the start.
    pub fn new(proof_bytes: &'a [u8]) -> (d: Self)
        ensures
            d.wf(),
            d.remaining() == proof_bytes@,
    {
        let d = Decoder { offset: 0, bytes: proof_bytes };
        assert(d.remaining() =~= proof_bytes@);
        d
    }

    /// Reads the next operator. Returns `None` when the bytes are used up;
    /// after an error, the decoder stays where it was.
    pub fn next(&mut self) -> (r: Option<Result<Op, Error>>)
        requires
            old(self).wf(),
        ensures
            final(self).wf(),
            old(self).remaining().len() == 0 ==> r is None && final(self).remaining() == old(self).remaining(),
            old(self).remaining().len() > 0 ==> match decode_spec(old(self).remaining()) {
                Ok(op) => r matches Some(Ok(o)) && o@ == op && encodable(op) && final(self).remaining() == old(self).remaining().skip(op_len(op) as int),
                Err(e) => r matches Some(Err(Error::Ed(d))) && d == e && final(self).remaining()
                    == old(self).remaining(),
            },
    {
        if self.offset >= self.bytes.len() {
            return None;
        }
        let rest = vstd::slice::slice_subrange(self.bytes, self.offset, self.bytes.len());
        assert(rest@ =~= self.remaining());
        match Op::decode(rest) {
            Ok(op) => {
                proof {
                    lemma_decode_len(rest@);
                }
                let n = op.encoding_length();
                let ghost before = self.remaining();
                self.offset = self.offset + n;
                assert(self.remaining() =~= before.skip(n as int));
                Some(Ok(op))
            },
            Err(e) => Some(Err(e)),
        }
    }
}

} // verus!
