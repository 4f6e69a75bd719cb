//! The errors of the library.

use vstd::prelude::*;

verus! {

/// What went wrong.
#[derive(Clone, Copy, Debug, PartialEq, Eq, Structural)]
pub enum Error {
    /// The model is not a JSON object of the expected shape.
    Json,
    /// A key of the model is not base64.
    Base64,
    /// A piece has one of the reserved ids 0, 1 and 2.
    ReservedId,
    /// Two pieces have the same id.
    DuplicateId,
    /// A piece is the bytes of a reserved token, `<pad>`, `<bos>` or `<eos>`.
    ReservedPiece,
    /// Two pieces are the same bytes.
    DuplicatePiece,
    /// The searcher over the pieces could not be built.
    AhoCorasickBuild,
    /// The id belongs to no piece.
    UnknownId(usize),
    /// The bytes are no piece of the vocabulary.
    UnknownPiece,
    /// The decoded bytes are not UTF-8.
    FromUtf8,
}

/// The class of an error.
#[derive(Clone, Copy, Debug, PartialEq, Eq, Structural)]
pub enum ErrorKind {
    /// The model could not be turned into a vocabulary.
    Parse,
    /// The caller asked for an id or a piece that the vocabulary lacks.
    Lookup,
    /// Decoded bytes are not text.
    Encoding,
}

impl Error {
    /// The class of the error.
    pub open spec fn spec_kind(self) -> ErrorKind {
        match self {
            Error::UnknownId(_) | Error::UnknownPiece => ErrorKind::Lookup,
            Error::FromUtf8 => ErrorKind::Encoding,
            _ => ErrorKind::Parse,
        }
    }

    /// The class of the error: a lookup error for an unknown id or piece, an
    /// encoding error for bytes that are no text, a parse error otherwise.
    #[verifier::when_used_as_spec(spec_kind)]
    pub fn kind(self) -> (kind: ErrorKind)
        ensures
            kind == self.spec_kind(),
    {
        match self {
            Error::UnknownId(_) => ErrorKind::Lookup,
            Error::UnknownPiece => ErrorKind::Lookup,
            Error::FromUtf8 => ErrorKind::Encoding,
            _ => ErrorKind::Parse,
        }
    }
}

} // verus!
