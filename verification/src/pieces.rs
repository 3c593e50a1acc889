use sha1::{Digest, Sha1};
use vstd::prelude::*;
use crate::bytes::bytes_equal;

verus! {

/// The SHA-1 digest of `bytes`: the twenty bytes that the crate `sha1` computes for them.
pub uninterp spec fn sha1_digest(bytes: Seq<u8>) -> Seq<u8>;

/// Calls `Sha1::new`, `Digest::input` and `Digest::result` of the crate `sha1` on `bytes`.
/// The contract names the outcome and says nothing of its bytes: the digest is a function of
/// the input alone.
#[verifier::external_body]
fn sha1_of(bytes: &[u8]) -> (digest: [u8; 20])
    ensures
        digest@ == sha1_digest(bytes@),
{
    let mut hasher = Sha1::new();
    hasher.input(bytes);
    hasher.result().into()
}

/// A piece of a download: its bytes, and the digest that they are expected to have.
pub struct Piece {
    sha: [u8; 20],
    index: u32,
    bytes: Vec<u8>,
    _done: bool,
}

/// What a piece holds.
pub struct PieceView {
    pub sha: Seq<u8>,
    pub index: u32,
    pub bytes: Seq<u8>,
    /// Whether the bytes were found to have the expected digest.
    pub done: bool,
}

impl View for Piece {
    type V = PieceView;

    closed spec fn view(&self) -> PieceView {
        PieceView { sha: self.sha@, index: self.index, bytes: self.bytes@, done: self._done }
    }
}

impl Piece {
    /// The piece at `index` with the given bytes, not yet checked against `sha`.
    pub fn new(sha: [u8; 20], index: u32, bytes: Vec<u8>) -> (piece: Piece)
        ensures
            piece@ == (PieceView { sha: sha@, index, bytes: bytes@, done: false }),
    {
        Piece { sha, index, bytes, _done: false }
    }

    /// Marks the piece as done if `digest` is the expected digest, and as not done otherwise.
    pub fn settle(&mut self, digest: &[u8; 20]) -> (done: bool)
        ensures
            done == (digest@ == old(self)@.sha),
            final(self)@ == (PieceView { done, ..old(self)@ }),
    {
        self._done = bytes_equal(digest.as_slice(), self.sha.as_slice());
        self._done
    }

    /// Whether the bytes have the expected digest. The digest is computed until it has once
    /// been found to match; from then on the piece stays done.
    pub fn is_done(&mut self) -> (done: bool)
        ensures
            done == (old(self)@.done || sha1_digest(old(self)@.bytes) == old(self)@.sha),
            final(self)@ == (PieceView { done, ..old(self)@ }),
    {
        if !self._done {
            let result = sha1_of(self.bytes.as_slice());
            self.settle(&result);
        }
        self._done
    }
}

} // verus!
