use vstd::prelude::*;

verus! {

/// Why an input was not decoded.
#[derive(Clone, Copy, Debug, PartialEq, Eq, Structural)]
pub enum ErrorKind {
    /// The input ends before the item does.
    TruncatedInput,
    /// A length or an integer is not written as a decimal number, or the integer does not fit
    /// in 64 bits.
    MalformedLength,
    /// Where an item has to begin stands a byte that begins none.
    UnexpectedMarker,
    /// A key occurs a second time in one mapping, and the options reject that.
    DuplicateKey,
    /// A list or mapping is nested deeper than the options allow.
    DepthExceeded,
}

/// What the decoder was reading when it gave up.
#[derive(Clone, Copy, Debug, PartialEq, Eq, Structural)]
pub enum Form {
    /// An item whose first byte was not read or begins nothing.
    Value,
    Integer,
    ByteString,
    List,
    Mapping,
}

/// A failed decoding: the reason, and the form that was being read.
#[derive(Clone, Copy, Debug, PartialEq, Eq, Structural)]
pub struct DecodeError {
    pub kind: ErrorKind,
    pub form: Form,
}

} // verus!
