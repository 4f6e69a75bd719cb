//! The three reserved control tokens and their fixed ids.

use vstd::prelude::*;

verus! {

/// The piece of the padding token, `<pad>`.
pub const PAD: [u8; 5] = [0x3c, 0x70, 0x61, 0x64, 0x3e];

/// The piece of the token that begins a sequence, `<bos>`.
pub const BOS: [u8; 5] = [0x3c, 0x62, 0x6f, 0x73, 0x3e];

/// The piece of the token that ends a sequence, `<eos>`.
pub const EOS: [u8; 5] = [0x3c, 0x65, 0x6f, 0x73, 0x3e];

/// The number of reserved ids: no piece of a vocabulary has an id below it.
pub const RESERVED: usize = 3;

/// A reserved control token.
#[derive(Clone, Copy, Debug, PartialEq, Eq, Structural)]
pub enum SpatialToken {
    Pad,
    Bos,
    Eos,
}

impl SpatialToken {
    /// The id of the token.
    pub open spec fn spec_id(self) -> usize {
        match self {
            SpatialToken::Pad => 0,
            SpatialToken::Bos => 1,
            SpatialToken::Eos => 2,
        }
    }

    /// The piece of the token.
    pub open spec fn spec_piece(self) -> Seq<u8> {
        match self {
            SpatialToken::Pad => PAD@,
            SpatialToken::Bos => BOS@,
            SpatialToken::Eos => EOS@,
        }
    }

    /// The id of the token: 0 for `Pad`, 1 for `Bos`, 2 for `Eos`.
    #[verifier::when_used_as_spec(spec_id)]
    pub fn id(self) -> (id: usize)
        ensures
            id == self.spec_id(),
            id < RESERVED,
    {
        match self {
            SpatialToken::Pad => 0,
            SpatialToken::Bos => 1,
            SpatialToken::Eos => 2,
        }
    }

    /// The token with the given id, if the id is reserved.
    pub fn from_id(id: usize) -> (token: Option<SpatialToken>)
        ensures
            id < RESERVED <==> token is Some,
            token matches Some(t) ==> t.spec_id() == id,
    {
        if id == 0 {
            Some(SpatialToken::Pad)
        } else if id == 1 {
            Some(SpatialToken::Bos)
        } else if id == 2 {
            Some(SpatialToken::Eos)
        } else {
            None
        }
    }

    /// The piece of the token: `<pad>`, `<bos>` or `<eos>`.
    pub fn piece(self) -> (piece: &'static [u8])
        ensures
            piece@ == self.spec_piece(),
    {
        match self {
            SpatialToken::Pad => PAD.as_slice(),
            SpatialToken::Bos => BOS.as_slice(),
            SpatialToken::Eos => EOS.as_slice(),
        }
    }
}

/// Whether `piece` is the piece of a reserved token.
pub open spec fn is_reserved_piece(piece: Seq<u8>) -> bool {
    piece == PAD@ || piece == BOS@ || piece == EOS@
}

/// The id of the reserved token whose piece `piece` is, if it is one.
pub open spec fn reserved_id(piece: Seq<u8>) -> Option<usize> {
    if piece == PAD@ {
        Some(0usize)
    } else if piece == BOS@ {
        Some(1usize)
    } else if piece == EOS@ {
        Some(2usize)
    } else {
        None
    }
}

/// The pieces of the three reserved tokens differ from one another, and each
/// has five bytes.
pub proof fn lemma_reserved_pieces_differ()
    ensures
        PAD@ != BOS@,
        PAD@ != EOS@,
        BOS@ != EOS@,
        PAD@.len() == 5,
        BOS@.len() == 5,
        EOS@.len() == 5,
{
    assert(PAD@[1] == 0x70);
    assert(BOS@[1] == 0x62);
    assert(EOS@[1] == 0x65);
}

/// Whether `a` and `b` are the same bytes.
pub fn same_bytes(a: &[u8], b: &[u8]) -> (same: bool)
    ensures
        same == (a@ == b@),
{
    if a.len() != b.len() {
        return false;
    }
    let mut at: usize = 0;
    while at < a.len()
        invariant
            at <= a.len(),
            a.len() == b.len(),
            forall|i: int| 0 <= i < at ==> a@[i] == b@[i],
        decreases a.len() - at,
    {
        if a[at] != b[at] {
            return false;
        }
        at += 1;
    }
    assert(a@ =~= b@);
    true
}

impl SpatialToken {
    /// The reserved token whose piece `piece` is, if it is one.
    pub fn from_piece(piece: &[u8]) -> (token: Option<SpatialToken>)
        ensures
            is_reserved_piece(piece@) <==> token is Some,
            token matches Some(t) ==> t.spec_piece() == piece@ && reserved_id(piece@) == Some(
                t.spec_id(),
            ),
            token is None ==> reserved_id(piece@) is None,
    {
        proof {
            lemma_reserved_pieces_differ();
        }
        if same_bytes(piece, PAD.as_slice()) {
            Some(SpatialToken::Pad)
        } else if same_bytes(piece, BOS.as_slice()) {
            Some(SpatialToken::Bos)
        } else if same_bytes(piece, EOS.as_slice()) {
            Some(SpatialToken::Eos)
        } else {
            None
        }
    }
}

} // verus!
