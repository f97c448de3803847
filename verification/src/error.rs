use vstd::prelude::*;

verus! {

/// Why a decoder could not read an operator from its input.
#[derive(Debug, PartialEq, Eq, Clone, Copy, Structural)]
pub enum DecodeError {
    /// The input ended before the operator was complete.
    UnexpectedEof,
    /// The operator began with a byte that names no operator.
    UnexpectedByte(u8),
}

/// The errors of this library.
#[derive(Debug)]
pub enum Error {
    /// A child was attached to a side that already had one.
    Attach(String),
    /// A queried bound could not be checked against the proof.
    Bound(String),
    /// A proof could not be decoded.
    Ed(DecodeError),
    /// The proof's root hash differs from the expected one
    /// (expected, actual).
    HashMismatch([u8; 32], [u8; 32]),
    /// Keys were out of order.
    Key(String),
    /// A key that was to be deleted does not exist.
    KeyDelete(Vec<u8>),
    /// The proof does not contain the data the query needs.
    MissingData,
    /// A key or value is too long to be hashed.
    Overflow(String),
    /// The proof is malformed.
    Proof(String),
    /// An operator needed more items than the stack held.
    StackUnderflow,
    /// The tree is not in the state the operation needs.
    Tree(String),
}

/// The kind of an `Error`, as contracts name it.
#[derive(PartialEq, Eq, Structural, Clone, Copy)]
pub enum Fault {
    Attach,
    Bound,
    Decode(DecodeError),
    HashMismatch,
    Key,
    KeyDelete,
    MissingData,
    Overflow,
    Proof,
    StackUnderflow,
    Tree,
}

impl Error {
    /// The kind of this error.
    pub open spec fn fault(self) -> Fault {
        match self {
            Error::Attach(_) => Fault::Attach,
            Error::Bound(_) => Fault::Bound,
            Error::Ed(d) => Fault::Decode(d),
            Error::HashMismatch(_, _) => Fault::HashMismatch,
            Error::Key(_) => Fault::Key,
            Error::KeyDelete(_) => Fault::KeyDelete,
            Error::MissingData => Fault::MissingData,
            Error::Overflow(_) => Fault::Overflow,
            Error::Proof(_) => Fault::Proof,
            Error::StackUnderflow => Fault::StackUnderflow,
            Error::Tree(_) => Fault::Tree,
        }
    }
}

/// Results whose error is this library's `Error`.
pub type Result<T> = std::result::Result<T, Error>;

} // verus!
