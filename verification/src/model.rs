//! The table of pieces that a vocabulary is made from, and its reading from a
//! serialized model.
//!
//! A model is a JSON object. Each key is the base64 form of a piece, in the
//! standard alphabet with padding; each value is an array of the piece's id,
//! its display form and the number of times it was counted.

use crate::error::Error;
use std::collections::BTreeMap;
use vstd::prelude::*;

verus! {

/// One piece of a model.
pub struct Piece {
    /// The bytes of the piece.
    pub bytes: Vec<u8>,
    /// The id of the piece.
    pub id: usize,
    /// The piece in a form meant for reading.
    pub display: String,
    /// How often the piece was counted in training.
    pub count: usize,
}

/// The pieces of a model, in the order of their numbers.
pub type Pieces = Vec<Piece>;

/// A piece as contracts speak of it.
pub struct PieceView {
    pub bytes: Seq<u8>,
    pub id: usize,
    pub display: Seq<char>,
    pub count: usize,
}

impl View for Piece {
    type V = PieceView;

    open spec fn view(&self) -> PieceView {
        PieceView { bytes: self.bytes@, id: self.id, display: self.display@, count: self.count }
    }
}

/// The pieces of a table as contracts speak of them.
pub open spec fn views_of(pieces: Seq<Piece>) -> Seq<PieceView> {
    Seq::new(pieces.len(), |i: int| pieces[i]@)
}

/// A row of a model as it is read: key, id, display form and count.
pub type Row = (String, u64, String, u64);

/// A row as contracts speak of it.
pub type RowView = (Seq<char>, u64, Seq<char>, u64);

/// The rows of the JSON object that `buf` holds, in the order of their keys,
/// and `None` where `buf` is no JSON object whose values are arrays of a
/// number, a string and a number.
pub uninterp spec fn json_rows(buf: Seq<u8>) -> Option<Seq<RowView>>;

/// The bytes that `key` stands for in base64, and `None` where `key` is not
/// base64 in the standard alphabet with padding.
pub uninterp spec fn base64_decoded(key: Seq<char>) -> Option<Seq<u8>>;

/// Reads the rows of a model with `serde_json::from_slice`, as a map from key
/// to value.
///
/// Claimed of it: whether it succeeds, and the rows it gives, depend on the
/// bytes alone. The rows come in the order of their keys. What the reader says
/// of a failure is dropped.
#[verifier::external_body]
pub(crate) fn read_rows(buf: &[u8]) -> (rows: Option<Vec<Row>>)
    ensures
        match rows {
            Some(found) => json_rows(buf@) == Some(found.deep_view()),
            None => json_rows(buf@) is None,
        },
{
    let table: BTreeMap<&str, (u64, String, u64)> = serde_json::from_slice(buf).ok()?;
    Some(
        table.into_iter().map(|(key, value)| (key.to_string(), value.0, value.1, value.2)).collect(),
    )
}

/// Decodes a key with `base64_simd::STANDARD.decode_to_vec`.
///
/// Claimed of it: whether it succeeds, and the bytes it gives, depend on the
/// key alone. A failure carries nothing more.
#[verifier::external_body]
pub(crate) fn decode_key(key: &str) -> (bytes: Option<Vec<u8>>)
    ensures
        match bytes {
            Some(found) => base64_decoded(key@) == Some(found@),
            None => base64_decoded(key@) is None,
        },
{
    base64_simd::STANDARD.decode_to_vec(key).ok()
}

/// Whether the id and the count of a row fit the machine's word.
pub open spec fn row_fits(row: RowView) -> bool {
    row.1 <= usize::MAX && row.3 <= usize::MAX
}

/// The piece that a row stands for, where its numbers fit and its key is
/// base64.
pub open spec fn piece_of_row(row: RowView) -> PieceView {
    PieceView {
        bytes: base64_decoded(row.0).unwrap(),
        id: row.1 as usize,
        display: row.2,
        count: row.3 as usize,
    }
}

/// The table that `rows` stand for. A number that does not fit the machine's
/// word makes the rows as unreadable as broken JSON; after that, a key that is
/// not base64 fails the table.
pub open spec fn pieces_of_rows(rows: Seq<RowView>) -> Result<Seq<PieceView>, Error> {
    if exists|i: int| 0 <= i < rows.len() && !row_fits(#[trigger] rows[i]) {
        Err(Error::Json)
    } else if exists|i: int| 0 <= i < rows.len() && base64_decoded((#[trigger] rows[i]).0) is None {
        Err(Error::Base64)
    } else {
        Ok(Seq::new(rows.len(), |i: int| piece_of_row(rows[i])))
    }
}

/// The table that the model in `buf` holds.
pub open spec fn parsed(buf: Seq<u8>) -> Result<Seq<PieceView>, Error> {
    match json_rows(buf) {
        Some(rows) => pieces_of_rows(rows),
        None => Err(Error::Json),
    }
}

/// Turns the rows of a model into its table of pieces, one piece per row and
/// in the order of the rows.
///
/// Fails with `Error::Json` if an id or a count does not fit the machine's
/// word, else with `Error::Base64` if a key is not base64.
pub fn pieces_from_rows(rows: &Vec<Row>) -> (pieces: Result<Pieces, Error>)
    ensures
        match pieces {
            Ok(table) => pieces_of_rows(rows.deep_view()) == Ok::<Seq<PieceView>, Error>(
                views_of(table@),
            ),
            Err(e) => pieces_of_rows(rows.deep_view()) == Err::<Seq<PieceView>, Error>(e),
        },
{
    let ghost model = rows.deep_view();
    let mut at: usize = 0;
    while at < rows.len()
        invariant
            at <= rows.len(),
            model == rows.deep_view(),
            forall|i: int| 0 <= i < at ==> row_fits(#[trigger] model[i]),
        decreases rows.len() - at,
    {
        assert(model[at as int] == rows[at as int].deep_view());
        if rows[at].1 > usize::MAX as u64 || rows[at].3 > usize::MAX as u64 {
            return Err(Error::Json);
        }
        at += 1;
    }
    let mut table: Pieces = Vec::new();
    let mut done: usize = 0;
    while done < rows.len()
        invariant
            done <= rows.len(),
            model == rows.deep_view(),
            forall|i: int| 0 <= i < rows.len() ==> row_fits(#[trigger] model[i]),
            table.len() == done,
            forall|i: int| 0 <= i < done ==> base64_decoded((#[trigger] model[i]).0) is Some,
            forall|i: int| 0 <= i < done ==> (#[trigger] table[i])@ == piece_of_row(model[i]),
        decreases rows.len() - done,
    {
        assert(model[done as int] == rows[done as int].deep_view());
        let bytes = match decode_key(rows[done].0.as_str()) {
            Some(found) => found,
            None => {
                return Err(Error::Base64);
            },
        };
        let piece = Piece {
            bytes,
            id: rows[done].1 as usize,
            display: rows[done].2.clone(),
            count: rows[done].3 as usize,
        };
        table.push(piece);
        done += 1;
    }
    assert(views_of(table@) =~= Seq::new(model.len(), |i: int| piece_of_row(model[i])));
    Ok(table)
}

/// Reads the table of pieces from a serialized model.
///
/// Fails with `Error::Json` if the bytes are no JSON object of the expected
/// shape, and with `Error::Base64` if a key is not base64. The pieces come in
/// the order of their keys. Ids are not examined here: building a tokenizer
/// from the table does that.
pub fn parse_pieces_from_slice(buf: &[u8]) -> (pieces: Result<Pieces, Error>)
    ensures
        match pieces {
            Ok(table) => parsed(buf@) == Ok::<Seq<PieceView>, Error>(views_of(table@)),
            Err(e) => parsed(buf@) == Err::<Seq<PieceView>, Error>(e),
        },
{
    match read_rows(buf) {
        Some(rows) => pieces_from_rows(&rows),
        None => Err(Error::Json),
    }
}

} // verus!
