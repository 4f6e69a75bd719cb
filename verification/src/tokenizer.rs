//! The tokenizer: a vocabulary with its searcher, and the operations that
//! turn bytes into tokens and ids and back.

use crate::common::SpatialToken;
use crate::common::RESERVED;
use crate::error::Error;
use crate::matcher::build_searcher;
use crate::matcher::bytes_of;
use crate::matcher::overlapping;
use crate::matcher::searcher_is_standard;
use crate::matcher::searcher_patterns;
use crate::model::views_of;
use crate::model::Piece;
use crate::model::Pieces;
use crate::segment::distinct;
use crate::segment::is_full_scan;
use crate::segment::occurs;
use crate::segment::segment;
use crate::segment::Span;
use crate::utils::lines_of;
use crate::utils::normalize;
use crate::vocabulary::closing;
use crate::vocabulary::opening;
use crate::vocabulary::total_count;
use crate::vocabulary::vocabulary_of;
use crate::vocabulary::Vocabulary;
use crate::weight::weight;
use aho_corasick::AhoCorasick;
use aho_corasick::BuildError;
use std::collections::HashMap;
use vstd::prelude::*;
use vstd::slice::slice_to_vec;
use vstd::utf8::decode_utf8;
use vstd::utf8::valid_utf8;

verus! {

broadcast use vstd::std_specs::hash::group_hash_axioms;

/// The byte strings that `slices` show.
pub open spec fn slices_of(slices: Seq<&[u8]>) -> Seq<Seq<u8>> {
    Seq::new(slices.len(), |i: int| slices[i]@)
}

/// What a tokenizer does. A type that knows its vocabulary and offers the
/// four basic operations has the others from them.
pub trait Tokenize {
    /// The vocabulary that the tokenizer works on.
    spec fn vocabulary(&self) -> Vocabulary;

    /// The tokenizer is in the state that building it leaves it in.
    spec fn wf(&self) -> bool;

    /// The vocabulary of a tokenizer is valid.
    proof fn lemma_vocabulary_wf(&self)
        requires
            self.wf(),
        ensures
            self.vocabulary().wf(),
    ;

    /// Divides `text` into tokens, each a view into `text`: line by line, and
    /// each line along the pieces whose weights add up to the most. A byte
    /// that no chosen piece covers is a token of its own.
    ///
    /// The tokens are a function of the vocabulary and the text. Each is a
    /// piece of the vocabulary or a single byte. Within each line no other
    /// division into tokens has a higher total weight.
    fn tokenize<'s>(&self, text: &'s [u8]) -> (tokens: Vec<&'s [u8]>)
        requires
            self.wf(),
        ensures
            slices_of(tokens@) == self.vocabulary().tokens(text@),
            self.vocabulary().tokens_plain(text@),
            self.vocabulary().lines_optimal(text@),
    ;

    /// The id of `piece`: 0, 1 and 2 for `<pad>`, `<bos>` and `<eos>`, and
    /// its own id for a piece of the vocabulary. Fails with
    /// `Error::UnknownPiece` where the bytes are neither.
    fn piece_to_id(&self, piece: &[u8]) -> (id: Result<usize, Error>)
        requires
            self.wf(),
        ensures
            id == match self.vocabulary().piece_id(piece@) {
                Some(found) => Ok::<usize, Error>(found),
                None => Err::<usize, Error>(Error::UnknownPiece),
            },
    ;

    /// The piece with the id `id`, and `Error::UnknownId` where no piece has
    /// it.
    fn id_to_piece(&self, id: usize) -> (piece: Result<&[u8], Error>)
        requires
            self.wf(),
        ensures
            match piece {
                Ok(found) => self.vocabulary().piece_of(id) == Some(found@),
                Err(e) => e == Error::UnknownId(id) && self.vocabulary().piece_of(id) is None,
            },
    ;

    /// The number of ids: one for each piece and three reserved ones.
    fn vocab_size(&self) -> (size: usize)
        requires
            self.wf(),
        ensures
            size == self.vocabulary().size(),
    ;

    /// The ids of `pieces`, in order; the error of the first that is no
    /// piece.
    fn pieces_to_ids(&self, pieces: &[&[u8]]) -> (ids: Result<Vec<usize>, Error>)
        requires
            self.wf(),
        ensures
            match ids {
                Ok(found) => self.vocabulary().ids_of(slices_of(pieces@)) == Ok::<
                    Seq<usize>,
                    Error,
                >(found@),
                Err(e) => self.vocabulary().ids_of(slices_of(pieces@)) == Err::<Seq<usize>, Error>(
                    e,
                ),
            },
    {
        let mut ids: Vec<usize> = Vec::new();
        let mut at: usize = 0;
        assert(slices_of(pieces@).take(0) =~= Seq::<Seq<u8>>::empty());
        while at < pieces.len()
            invariant
                self.wf(),
                at <= pieces.len(),
                self.vocabulary().ids_of(slices_of(pieces@).take(at as int)) == Ok::<
                    Seq<usize>,
                    Error,
                >(ids@),
            decreases pieces.len() - at,
        {
            let ghost upto = slices_of(pieces@).take(at + 1);
            assert(upto.drop_last() =~= slices_of(pieces@).take(at as int));
            assert(upto.last() == pieces@[at as int]@);
            match self.piece_to_id(pieces[at]) {
                Ok(id) => {
                    ids.push(id);
                },
                Err(e) => {
                    proof {
                        lemma_ids_of_fails(self.vocabulary(), slices_of(pieces@), at + 1);
                    }
                    return Err(e);
                },
            }
            at += 1;
        }
        assert(slices_of(pieces@).take(pieces.len() as int) =~= slices_of(pieces@));
        Ok(ids)
    }

    /// The pieces of `ids`, in order; the error of the first id that has no
    /// piece.
    fn ids_to_pieces(&self, ids: &[usize]) -> (pieces: Result<Vec<&[u8]>, Error>)
        requires
            self.wf(),
        ensures
            match pieces {
                Ok(found) => self.vocabulary().pieces_of(ids@) == Ok::<Seq<Seq<u8>>, Error>(
                    slices_of(found@),
                ),
                Err(e) => self.vocabulary().pieces_of(ids@) == Err::<Seq<Seq<u8>>, Error>(e),
            },
    {
        let mut pieces: Vec<&[u8]> = Vec::new();
        let mut at: usize = 0;
        assert(ids@.take(0) =~= Seq::<usize>::empty());
        assert(slices_of(pieces@) =~= Seq::<Seq<u8>>::empty());
        while at < ids.len()
            invariant
                self.wf(),
                at <= ids.len(),
                self.vocabulary().pieces_of(ids@.take(at as int)) == Ok::<Seq<Seq<u8>>, Error>(
                    slices_of(pieces@),
                ),
            decreases ids.len() - at,
        {
            let ghost upto = ids@.take(at + 1);
            let ghost before = slices_of(pieces@);
            assert(upto.drop_last() =~= ids@.take(at as int));
            assert(upto.last() == ids@[at as int]);
            match self.id_to_piece(ids[at]) {
                Ok(piece) => {
                    pieces.push(piece);
                    assert(slices_of(pieces@) =~= before.push(piece@));
                },
                Err(e) => {
                    proof {
                        lemma_pieces_of_fails(self.vocabulary(), ids@, at + 1);
                    }
                    return Err(e);
                },
            }
            at += 1;
        }
        assert(ids@.take(ids.len() as int) =~= ids@);
        Ok(pieces)
    }

    /// The ids of the tokens of `text`, with id 1 in front if `add_bos` and
    /// id 2 behind if `add_eos`. Fails with `Error::UnknownPiece` if a token is
    /// no piece, which only a byte that the vocabulary lacks can be. Decoding
    /// the ids gives the text back.
    fn encode(&self, text: &[u8], add_bos: bool, add_eos: bool) -> (ids: Result<
        Vec<usize>,
        Error,
    >)
        requires
            self.wf(),
        ensures
            match ids {
                Ok(found) => self.vocabulary().encoding(text@, add_bos, add_eos) == Ok::<
                    Seq<usize>,
                    Error,
                >(found@) && self.vocabulary().decoding(found@) == Ok::<Seq<u8>, Error>(text@),
                Err(e) => self.vocabulary().encoding(text@, add_bos, add_eos) == Err::<
                    Seq<usize>,
                    Error,
                >(e),
            },
    {
        let tokens = self.tokenize(text);
        let text_len: usize = text.len();
        let body = match self.pieces_to_ids(tokens.as_slice()) {
            Ok(found) => found,
            Err(e) => {
                return Err(e);
            },
        };
        let mut ids: Vec<usize> = Vec::new();
        if add_bos {
            ids.push(SpatialToken::Bos.id());
        }
        let mut at: usize = 0;
        while at < body.len()
            invariant
                at <= body.len(),
                ids@ == opening(add_bos) + body@.take(at as int),
            decreases body.len() - at,
        {
            ids.push(body[at]);
            assert(body@.take(at + 1) =~= body@.take(at as int).push(body@[at as int]));
            at += 1;
        }
        assert(body@.take(body.len() as int) =~= body@);
        if add_eos {
            ids.push(SpatialToken::Eos.id());
        }
        assert(ids@ =~= opening(add_bos) + body@ + closing(add_eos));
        proof {
            assert(text@.len() == text_len);
            self.lemma_vocabulary_wf();
            crate::vocabulary::lemma_round_trip(self.vocabulary(), text@, add_bos, add_eos);
        }
        Ok(ids)
    }

    /// The bytes that `ids` stand for: every reserved id is passed over, and
    /// the pieces of the others are joined in order. Fails with
    /// `Error::UnknownId` at the first id above the reserved ones that has no
    /// piece.
    fn decode(&self, ids: &[usize]) -> (bytes: Result<Vec<u8>, Error>)
        requires
            self.wf(),
        ensures
            match bytes {
                Ok(found) => self.vocabulary().decoding(ids@) == Ok::<Seq<u8>, Error>(found@),
                Err(e) => self.vocabulary().decoding(ids@) == Err::<Seq<u8>, Error>(e),
            },
    {
        let mut bytes: Vec<u8> = Vec::new();
        let mut at: usize = 0;
        assert(ids@.take(0) =~= Seq::<usize>::empty());
        while at < ids.len()
            invariant
                self.wf(),
                at <= ids.len(),
                self.vocabulary().decoding(ids@.take(at as int)) == Ok::<Seq<u8>, Error>(bytes@),
            decreases ids.len() - at,
        {
            let ghost upto = ids@.take(at + 1);
            assert(upto.drop_last() =~= ids@.take(at as int));
            assert(upto.last() == ids@[at as int]);
            if ids[at] >= RESERVED {
                match self.id_to_piece(ids[at]) {
                    Ok(piece) => {
                        append(&mut bytes, piece);
                    },
                    Err(e) => {
                        proof {
                            lemma_decoding_fails(self.vocabulary(), ids@, at + 1);
                        }
                        return Err(e);
                    },
                }
            }
            at += 1;
        }
        assert(ids@.take(ids.len() as int) =~= ids@);
        Ok(bytes)
    }

    /// The text that `ids` stand for: what `decode` gives, read as UTF-8.
    /// Fails as `decode` does, and with `Error::FromUtf8` if the bytes are
    /// not UTF-8.
    fn decode_text(&self, ids: &[usize]) -> (text: Result<String, Error>)
        requires
            self.wf(),
        ensures
            match text {
                Ok(found) => self.vocabulary().decoding_text(ids@) == Ok::<Seq<char>, Error>(
                    found@,
                ),
                Err(e) => self.vocabulary().decoding_text(ids@) == Err::<Seq<char>, Error>(e),
            },
    {
        match self.decode(ids) {
            Ok(bytes) => match text_from_utf8(bytes) {
                Some(found) => Ok(found),
                None => Err(Error::FromUtf8),
            },
            Err(e) => Err(e),
        }
    }
}

/// Reads bytes as text with `String::from_utf8`.
///
/// Claimed of it: it succeeds exactly on bytes that are UTF-8, and the text
/// is then the characters that the bytes encode.
#[verifier::external_body]
fn text_from_utf8(bytes: Vec<u8>) -> (text: Option<String>)
    ensures
        match text {
            Some(found) => valid_utf8(bytes@) && found@ == decode_utf8(bytes@),
            None => !valid_utf8(bytes@),
        },
{
    String::from_utf8(bytes).ok()
}

/// Adds the bytes of `piece` to the end of `bytes`.
fn append(bytes: &mut Vec<u8>, piece: &[u8])
    ensures
        final(bytes)@ == old(bytes)@ + piece@,
{
    let mut at: usize = 0;
    while at < piece.len()
        invariant
            at <= piece.len(),
            bytes@ == old(bytes)@ + piece@.take(at as int),
        decreases piece.len() - at,
    {
        bytes.push(piece[at]);
        assert(piece@.take(at + 1) =~= piece@.take(at as int).push(piece@[at as int]));
        at += 1;
    }
    assert(piece@.take(piece.len() as int) =~= piece@);
}

/// Once the pieces of a prefix fail, those of the whole fail the same way.
pub proof fn lemma_pieces_of_fails(v: Vocabulary, ids: Seq<usize>, upto: int)
    requires
        0 <= upto <= ids.len(),
        v.pieces_of(ids.take(upto)) is Err,
    ensures
        v.pieces_of(ids) == v.pieces_of(ids.take(upto)),
    decreases ids.len() - upto,
{
    if upto < ids.len() {
        assert(ids.take(upto + 1).drop_last() =~= ids.take(upto));
        lemma_pieces_of_fails(v, ids, upto + 1);
    } else {
        assert(ids.take(upto) =~= ids);
    }
}

/// Once the decoding of a prefix fails, that of the whole fails the same way.
pub proof fn lemma_decoding_fails(v: Vocabulary, ids: Seq<usize>, upto: int)
    requires
        0 <= upto <= ids.len(),
        v.decoding(ids.take(upto)) is Err,
    ensures
        v.decoding(ids) == v.decoding(ids.take(upto)),
    decreases ids.len() - upto,
{
    if upto < ids.len() {
        assert(ids.take(upto + 1).drop_last() =~= ids.take(upto));
        lemma_decoding_fails(v, ids, upto + 1);
    } else {
        assert(ids.take(upto) =~= ids);
    }
}

/// Once the ids of a prefix fail, those of the whole fail the same way.
pub proof fn lemma_ids_of_fails(v: Vocabulary, pieces: Seq<Seq<u8>>, upto: int)
    requires
        0 <= upto <= pieces.len(),
        v.ids_of(pieces.take(upto)) is Err,
    ensures
        v.ids_of(pieces) == v.ids_of(pieces.take(upto)),
    decreases pieces.len() - upto,
{
    if upto < pieces.len() {
        assert(pieces.take(upto + 1).drop_last() =~= pieces.take(upto));
        lemma_ids_of_fails(v, pieces, upto + 1);
    } else {
        assert(pieces.take(upto) =~= pieces);
    }
}

/// `index` leads from every id of a piece to the number of that piece, and
/// from nothing else.
spec fn indexes(index: Map<usize, usize>, ids: Seq<usize>) -> bool {
    &&& forall|id: usize| #[trigger]
        index.contains_key(id) ==> index[id] < ids.len() && ids[index[id] as int] == id
    &&& forall|k: int| 0 <= k < ids.len() ==> index.contains_key(#[trigger] ids[k])
}

/// What keeps a tokenizer from being built on a table of pieces, if anything
/// does.
pub open spec fn construction_fault(pieces: Seq<crate::model::PieceView>) -> Option<Error> {
    vocabulary_of(pieces).fault(crate::matcher::searcher_builds(vocabulary_of(pieces).pieces))
}

/// A tokenizer that owns its vocabulary: the pieces by number, their ids and
/// weights, an index from id to number, and the searcher over the pieces.
pub struct Tokenizer {
    pieces: Vec<Vec<u8>>,
    ids: Vec<usize>,
    weights: Vec<Option<i64>>,
    index_of_id: HashMap<usize, usize>,
    empty_piece: Option<usize>,
    searcher: AhoCorasick,
    vocab_size: usize,
}

impl Tokenize for Tokenizer {
    closed spec fn vocabulary(&self) -> Vocabulary {
        Vocabulary { pieces: bytes_of(self.pieces@), ids: self.ids@, weights: self.weights@ }
    }

    closed spec fn wf(&self) -> bool {
        &&& self.vocabulary().wf()
        &&& searcher_is_standard(self.searcher)
        &&& searcher_patterns(self.searcher) == bytes_of(self.pieces@)
        &&& self.vocab_size == self.pieces.len() + RESERVED
        &&& indexes(self.index_of_id@, self.ids@)
        &&& match self.empty_piece {
            Some(k) => k < self.pieces.len() && self.pieces[k as int]@.len() == 0,
            None => forall|k: int| 0 <= k < self.pieces.len() ==> (#[trigger] self.pieces[k])@.len() > 0,
        }
    }

    proof fn lemma_vocabulary_wf(&self) {
    }

    fn tokenize<'s>(&self, text: &'s [u8]) -> (tokens: Vec<&'s [u8]>) {
        let lines = normalize(text, 0);
        let ghost v = self.vocabulary();
        let ghost all = lines_of(text@, 0);
        let mut tokens: Vec<&'s [u8]> = Vec::new();
        let mut at: usize = 0;
        assert(all.take(0) =~= Seq::<Seq<u8>>::empty());
        assert(slices_of(tokens@) =~= Seq::<Seq<u8>>::empty());
        while at < lines.len()
            invariant
                self.wf(),
                v == self.vocabulary(),
                at <= lines.len(),
                lines.len() == all.len(),
                forall|i: int| 0 <= i < lines.len() ==> (#[trigger] lines[i])@ == all[i],
                slices_of(tokens@) == v.tokens_of_lines(all.take(at as int)),
                forall|i: int| 0 <= i < at ==> v.line_optimal(#[trigger] all[i]),
                forall|i: int|
                    0 <= i < tokens.len() ==> crate::segment::is_plain(
                        v.pieces,
                        #[trigger] slices_of(tokens@)[i],
                    ),
            decreases lines.len() - at,
        {
            let line: &'s [u8] = lines[at];
            let spans = self.matches(line);
            let cuts = segment(line.len(), &spans, &self.weights);
            assert(cuts@ == v.line_cuts(line@));
            assert(v.line_optimal(line@)) by {
                assert forall|other: Seq<usize>|
                    crate::segment::is_decomposition(other, line@.len() as int) implies crate::segment::at_least(
                    crate::segment::total(v.pieces, v.weights, line@, v.line_cuts(line@)),
                    #[trigger] crate::segment::total(v.pieces, v.weights, line@, other),
                ) by {
                    crate::segment::lemma_segment_optimal(
                        v.pieces,
                        v.weights,
                        line@,
                        spans@,
                        other,
                    );
                }
            }
            assert(all.take(at + 1).drop_last() =~= all.take(at as int));
            assert(all.take(at + 1).last() == line@);
            let ghost before = slices_of(tokens@);
            let ghost wanted = v.line_tokens(line@);
            proof {
                crate::segment::lemma_segment_plain(
                    v.pieces,
                    v.weights,
                    line@,
                    spans@,
                    line.len(),
                );
            }
            let mut k: usize = 0;
            while k + 1 < cuts.len()
                invariant
                    crate::segment::is_decomposition(cuts@, line@.len() as int),
                    k + 1 <= cuts.len(),
                    wanted == crate::segment::tokens_at(line@, cuts@),
                    slices_of(tokens@) == before + wanted.take(k as int),
                    forall|i: int|
                        0 <= i < wanted.len() ==> crate::segment::is_plain(
                            v.pieces,
                            #[trigger] wanted[i],
                        ),
                    forall|i: int|
                        0 <= i < tokens.len() ==> crate::segment::is_plain(
                            v.pieces,
                            #[trigger] slices_of(tokens@)[i],
                        ),
                decreases cuts.len() - k,
            {
                assert(cuts@[k as int] < cuts@[k + 1]);
                assert(cuts@[k + 1] <= cuts@.last()) by {
                    crate::segment::lemma_cuts_ascend(cuts@, k + 1, cuts@.len() - 1);
                }
                let ghost earlier = slices_of(tokens@);
                let token: &'s [u8] = &line[cuts[k]..cuts[k + 1]];
                tokens.push(token);
                assert(slices_of(tokens@) =~= earlier.push(token@));
                assert(wanted.take(k + 1) =~= wanted.take(k as int).push(wanted[k as int]));
                assert(token@ == wanted[k as int]);
                k += 1;
            }
            assert(wanted.take(k as int) =~= wanted);
            at += 1;
        }
        assert(all.take(lines.len() as int) =~= all);
        tokens
    }

    fn piece_to_id(&self, piece: &[u8]) -> (id: Result<usize, Error>) {
        match SpatialToken::from_piece(piece) {
            Some(token) => Ok(token.id()),
            None => match self.find(piece) {
                Some(k) => Ok(self.ids[k]),
                None => Err(Error::UnknownPiece),
            },
        }
    }

    fn id_to_piece(&self, id: usize) -> (piece: Result<&[u8], Error>) {
        match SpatialToken::from_id(id) {
            Some(token) => Ok(token.piece()),
            None => match self.index_of_id.get(&id) {
                Some(k) => {
                    let ghost v = self.vocabulary();
                    assert(v.is_id(id, *k as int));
                    let ghost chosen = choose|j: int| v.is_id(id, j);
                    assert(chosen == *k) by {
                        if chosen < *k {
                            assert(v.ids[chosen] != v.ids[*k as int]);
                        }
                        if *k < chosen {
                            assert(v.ids[*k as int] != v.ids[chosen]);
                        }
                    }
                    Ok(self.pieces[*k].as_slice())
                },
                None => {
                    assert forall|k: int| !self.vocabulary().is_id(id, k) by {
                        if self.vocabulary().is_id(id, k) {
                            assert(self.index_of_id@.contains_key(self.ids@[k]));
                        }
                    }
                    Err(Error::UnknownId(id))
                },
            },
        }
    }

    fn vocab_size(&self) -> (size: usize) {
        self.vocab_size
    }
}

impl Tokenizer {
    /// The places where pieces occur in `line`, as the searcher reports them:
    /// every occurrence of every piece that is not empty, overlapping ones
    /// too, in the order of their end offsets.
    pub fn matches(&self, line: &[u8]) -> (spans: Vec<Span>)
        requires
            self.wf(),
        ensures
            spans@ == crate::matcher::overlapping_matches(self.vocabulary().pieces, line@),
            is_full_scan(spans@, self.vocabulary().pieces, line@),
    {
        overlapping(&self.searcher, line)
    }

    /// The weights of the pieces, by number.
    pub fn weights(&self) -> (weights: &Vec<Option<i64>>)
        requires
            self.wf(),
        ensures
            weights@ == self.vocabulary().weights,
    {
        &self.weights
    }

    /// The number of the piece that is the bytes `piece`, if one is.
    fn find(&self, piece: &[u8]) -> (found: Option<usize>)
        requires
            self.wf(),
        ensures
            match found {
                Some(k) => self.vocabulary().is_piece(piece@, k as int) && (choose|j: int|
                    self.vocabulary().is_piece(piece@, j)) == k,
                None => forall|j: int| !self.vocabulary().is_piece(piece@, j),
            },
    {
        let ghost v = self.vocabulary();
        let found = if piece.len() == 0 {
            proof {
                if let Some(k) = self.empty_piece {
                    assert(self.pieces[k as int]@ =~= piece@);
                }
            }
            self.empty_piece
        } else {
            whole_match(&overlapping(&self.searcher, piece), piece.len(), Ghost(v.pieces), Ghost(piece@))
        };
        proof {
            match found {
                Some(k) => {
                    assert(v.is_piece(piece@, k as int));
                    let chosen = choose|j: int| v.is_piece(piece@, j);
                    if chosen < k {
                        assert(v.pieces[chosen] != v.pieces[k as int]);
                    }
                    if k < chosen {
                        assert(v.pieces[k as int] != v.pieces[chosen]);
                    }
                },
                None => {
                    assert forall|j: int| !v.is_piece(piece@, j) by {
                        if v.is_piece(piece@, j) {
                            assert(self.pieces[j]@.len() == piece@.len());
                        }
                    }
                },
            }
        }
        found
    }
}

/// The number of a pattern that a full scan found to be the whole of the
/// haystack, if there is one.
fn whole_match(
    spans: &Vec<Span>,
    len: usize,
    Ghost(patterns): Ghost<Seq<Seq<u8>>>,
    Ghost(haystack): Ghost<Seq<u8>>,
) -> (found: Option<usize>)
    requires
        is_full_scan(spans@, patterns, haystack),
        0 < len == haystack.len(),
        patterns.len() <= usize::MAX,
    ensures
        match found {
            Some(k) => k < patterns.len() && patterns[k as int] == haystack,
            None => forall|k: int| 0 <= k < patterns.len() ==> patterns[k] != haystack,
        },
{
    let mut at: usize = 0;
    while at < spans.len()
        invariant
            at <= spans.len(),
            is_full_scan(spans@, patterns, haystack),
            len == haystack.len(),
            forall|i: int| 0 <= i < at ==> !((#[trigger] spans[i]).start == 0 && spans[i].end == len),
        decreases spans.len() - at,
    {
        let span = spans[at];
        if span.start == 0 && span.end == len {
            assert(occurs(patterns, haystack, span));
            assert(haystack.subrange(0, len as int) =~= haystack);
            return Some(span.pattern);
        }
        at += 1;
    }
    assert forall|k: int| 0 <= k < patterns.len() implies patterns[k] != haystack by {
        if patterns[k] == haystack {
            let span = Span { start: 0, end: len, pattern: k as usize };
            assert(haystack.subrange(0, len as int) =~= haystack);
            assert(occurs(patterns, haystack, span));
            assert(spans@.contains(span));
        }
    }
    None
}

/// Whether a piece of the table has a reserved id.
fn has_reserved_id(pieces: &Pieces) -> (found: bool)
    ensures
        found == !vocabulary_of(views_of(pieces@)).ids_free(),
{
    let ghost v = vocabulary_of(views_of(pieces@));
    let mut at: usize = 0;
    while at < pieces.len()
        invariant
            at <= pieces.len(),
            v == vocabulary_of(views_of(pieces@)),
            forall|k: int| 0 <= k < at ==> #[trigger] v.ids[k] >= RESERVED,
        decreases pieces.len() - at,
    {
        if pieces[at].id < RESERVED {
            assert(v.ids[at as int] < RESERVED);
            return true;
        }
        at += 1;
    }
    false
}

/// Whether a piece of the table is the bytes of a reserved token.
fn has_reserved_piece(pieces: &Pieces) -> (found: bool)
    ensures
        found == !vocabulary_of(views_of(pieces@)).pieces_free(),
{
    let ghost v = vocabulary_of(views_of(pieces@));
    let mut at: usize = 0;
    while at < pieces.len()
        invariant
            at <= pieces.len(),
            v == vocabulary_of(views_of(pieces@)),
            forall|k: int| 0 <= k < at ==> !crate::common::is_reserved_piece(#[trigger] v.pieces[k]),
        decreases pieces.len() - at,
    {
        assert(v.pieces[at as int] == pieces[at as int].bytes@);
        if SpatialToken::from_piece(pieces[at].bytes.as_slice()).is_some() {
            return true;
        }
        at += 1;
    }
    false
}

/// The index from the ids of the table to the numbers of its pieces, and
/// `None` where two pieces share an id.
fn index_ids(pieces: &Pieces) -> (index: Option<HashMap<usize, usize>>)
    ensures
        match index {
            Some(found) => vocabulary_of(views_of(pieces@)).ids_distinct() && indexes(
                found@,
                vocabulary_of(views_of(pieces@)).ids,
            ),
            None => !vocabulary_of(views_of(pieces@)).ids_distinct(),
        },
{
    let ghost v = vocabulary_of(views_of(pieces@));
    let mut index: HashMap<usize, usize> = HashMap::new();
    let mut at: usize = 0;
    while at < pieces.len()
        invariant
            at <= pieces.len(),
            v == vocabulary_of(views_of(pieces@)),
            indexes(index@, v.ids.take(at as int)),
            forall|j: int, k: int| 0 <= j < k < at ==> v.ids[j] != v.ids[k],
        decreases pieces.len() - at,
    {
        let id: usize = pieces[at].id;
        assert(v.ids[at as int] == id);
        if index.contains_key(&id) {
            let ghost j = index@[id] as int;
            assert(v.ids.take(at as int)[j] == id);
            assert(v.ids[j] == v.ids[at as int] && j < at);
            return None;
        }
        let ghost before = index@;
        index.insert(id, at);
        proof {
            let upto = v.ids.take(at + 1);
            assert forall|other: usize| #[trigger] index@.contains_key(other) implies index@[other]
                < upto.len() && upto[index@[other] as int] == other by {
                if other != id {
                    assert(before.contains_key(other));
                    assert(v.ids.take(at as int)[before[other] as int] == other);
                }
            }
            assert forall|k: int| 0 <= k < upto.len() implies index@.contains_key(
                #[trigger] upto[k],
            ) by {
                if k < at {
                    assert(before.contains_key(v.ids.take(at as int)[k]));
                }
            }
            assert forall|j: int, k: int| 0 <= j < k < at + 1 implies v.ids[j] != v.ids[k] by {
                if k == at && v.ids[j] == id {
                    assert(before.contains_key(v.ids.take(at as int)[j]));
                }
            }
        }
        at += 1;
    }
    assert(v.ids.take(pieces.len() as int) =~= v.ids);
    Some(index)
}

/// The sum of the counts of the table.
fn count_total(pieces: &Pieces) -> (total: u128)
    ensures
        total == total_count(views_of(pieces@)),
{
    let ghost all = views_of(pieces@);
    let mut total: u128 = 0;
    let mut at: usize = 0;
    assert(all.take(0) =~= Seq::<crate::model::PieceView>::empty());
    while at < pieces.len()
        invariant
            at <= pieces.len(),
            all == views_of(pieces@),
            total == total_count(all.take(at as int)),
            total <= at * usize::MAX,
        decreases pieces.len() - at,
    {
        assert(all.take(at + 1).drop_last() =~= all.take(at as int));
        assert(all.take(at + 1).last().count == pieces[at as int].count);
        assert(at * usize::MAX + usize::MAX == (at + 1) * usize::MAX) by (nonlinear_arith);
        assert((at + 1) * usize::MAX <= usize::MAX * usize::MAX) by (nonlinear_arith)
            requires
                at + 1 <= usize::MAX,
        ;
        assert(usize::MAX * usize::MAX < u128::MAX) by (nonlinear_arith)
            requires
                usize::MAX <= 0xffff_ffff_ffff_ffff,
                u128::MAX == 0xffff_ffff_ffff_ffff_ffff_ffff_ffff_ffff,
        ;
        total = total + pieces[at].count as u128;
        at += 1;
    }
    assert(all.take(pieces.len() as int) =~= all);
    total
}

/// Whether two of `pieces` are the same bytes; and, where none are, the number
/// of the empty piece if there is one. `searcher` is a searcher for `pieces`.
fn find_repeated(searcher: &AhoCorasick, pieces: &Vec<Vec<u8>>) -> (found: (bool, Option<usize>))
    requires
        searcher_is_standard(*searcher),
        searcher_patterns(*searcher) == bytes_of(pieces@),
    ensures
        found.0 == !distinct(bytes_of(pieces@)),
        !found.0 ==> match found.1 {
            Some(k) => k < pieces.len() && pieces[k as int]@.len() == 0,
            None => forall|k: int| 0 <= k < pieces.len() ==> (#[trigger] pieces[k])@.len() > 0,
        },
{
    let ghost all = bytes_of(pieces@);
    let mut empty: Option<usize> = None;
    let mut at: usize = 0;
    while at < pieces.len()
        invariant
            at <= pieces.len(),
            all == bytes_of(pieces@),
            searcher_is_standard(*searcher),
            searcher_patterns(*searcher) == all,
            forall|j: int, k: int| 0 <= j < k < at ==> all[j] != all[k],
            match empty {
                Some(k) => k < at && pieces[k as int]@.len() == 0,
                None => forall|k: int| 0 <= k < at ==> (#[trigger] pieces[k])@.len() > 0,
            },
        decreases pieces.len() - at,
    {
        let piece = pieces[at].as_slice();
        assert(piece@ == all[at as int]);
        if piece.len() == 0 {
            if let Some(k) = empty {
                assert(all[k as int] =~= all[at as int]);
                return (true, None);
            }
            empty = Some(at);
            assert forall|j: int| 0 <= j < at implies all[j] != all[at as int] by {
                assert(pieces[j]@.len() > 0);
            }
        }
        if piece.len() > 0 {
            let spans = overlapping(searcher, piece);
            let mut i: usize = 0;
            while i < spans.len()
                invariant
                    i <= spans.len(),
                    at < pieces.len(),
                    all == bytes_of(pieces@),
                    piece@ == all[at as int],
                    is_full_scan(spans@, all, piece@),
                    forall|j: int|
                        0 <= j < i ==> !((#[trigger] spans[j]).start == 0 && spans[j].end
                            == piece@.len() && spans[j].pattern != at),
                decreases spans.len() - i,
            {
                let span = spans[i];
                if span.start == 0 && span.end == piece.len() && span.pattern != at {
                    assert(occurs(all, piece@, span));
                    assert(piece@.subrange(0, piece@.len() as int) =~= piece@);
                    assert(all[span.pattern as int] == all[at as int]);
                    return (true, None);
                }
                i += 1;
            }
            assert forall|j: int| 0 <= j < all.len() && j != at implies all[j] != all[at as int] by {
                if all[j] == all[at as int] {
                    let span = Span { start: 0, end: piece.len(), pattern: j as usize };
                    assert(piece@.subrange(0, piece@.len() as int) =~= piece@);
                    assert(occurs(all, piece@, span));
                    assert(spans@.contains(span));
                }
            }
        }
        at += 1;
    }
    (false, empty)
}

impl Tokenizer {
    /// Builds a tokenizer from a table of pieces. The piece in place `k` of
    /// the table is piece number `k`, and its weight is the logarithm of its
    /// share in the sum of all counts.
    ///
    /// Fails with `Error::ReservedId` if a piece has the id 0, 1 or 2, else
    /// with `Error::DuplicateId` if two pieces have the same id, else with
    /// `Error::ReservedPiece` if a piece is the bytes of a reserved token.
    /// After that it fails with `Error::AhoCorasickBuild` if the table is empty
    /// or the searcher over the pieces cannot be built, else with
    /// `Error::DuplicatePiece` if two pieces are the same bytes. On every other
    /// table it succeeds.
    pub fn from_pieces(pieces: &Pieces) -> (built: Result<Tokenizer, Error>)
        requires
            pieces.len() + RESERVED <= usize::MAX,
        ensures
            match built {
                Ok(tokenizer) => tokenizer.wf() && tokenizer.vocabulary() == vocabulary_of(
                    views_of(pieces@),
                ) && construction_fault(views_of(pieces@)) is None,
                Err(e) => construction_fault(views_of(pieces@)) == Some(e),
            },
    {
        let patterns = piece_bytes(pieces);
        let searcher = build_searcher(&patterns);
        Tokenizer::with_searcher(pieces, searcher)
    }

    /// Builds a tokenizer from a table of pieces and the outcome of building
    /// the searcher over their bytes. The caller owes a searcher that was built
    /// over the bytes of the pieces, in the order of the table and under the
    /// standard match kind; `from_pieces` builds it so.
    ///
    /// Fails as `from_pieces` does, with `Error::AhoCorasickBuild` exactly
    /// where ids and pieces are in order and the table is empty or `searcher`
    /// is an error.
    pub fn with_searcher(pieces: &Pieces, searcher: Result<AhoCorasick, BuildError>) -> (built:
        Result<Tokenizer, Error>)
        requires
            pieces.len() + RESERVED <= usize::MAX,
            searcher matches Ok(found) ==> searcher_is_standard(found) && searcher_patterns(found)
                == vocabulary_of(views_of(pieces@)).pieces,
        ensures
            match built {
                Ok(tokenizer) => tokenizer.wf() && tokenizer.vocabulary() == vocabulary_of(
                    views_of(pieces@),
                ) && vocabulary_of(views_of(pieces@)).fault(searcher is Ok) is None,
                Err(e) => vocabulary_of(views_of(pieces@)).fault(searcher is Ok) == Some(e),
            },
    {
        let ghost v = vocabulary_of(views_of(pieces@));
        if has_reserved_id(pieces) {
            return Err(Error::ReservedId);
        }
        let index_of_id = match index_ids(pieces) {
            Some(found) => found,
            None => {
                return Err(Error::DuplicateId);
            },
        };
        if has_reserved_piece(pieces) {
            return Err(Error::ReservedPiece);
        }
        if pieces.len() == 0 {
            return Err(Error::AhoCorasickBuild);
        }
        let searcher = match searcher {
            Ok(found) => found,
            Err(_) => {
                return Err(Error::AhoCorasickBuild);
            },
        };
        let bytes = piece_bytes(pieces);
        assert(bytes_of(bytes@) =~= v.pieces);
        let (repeats, empty_piece) = find_repeated(&searcher, &bytes);
        if repeats {
            return Err(Error::DuplicatePiece);
        }
        let total = count_total(pieces);
        let mut ids: Vec<usize> = Vec::new();
        let mut weights: Vec<Option<i64>> = Vec::new();
        let mut at: usize = 0;
        while at < pieces.len()
            invariant
                at <= pieces.len(),
                v == vocabulary_of(views_of(pieces@)),
                total == total_count(views_of(pieces@)),
                ids@ == v.ids.take(at as int),
                weights@ == v.weights.take(at as int),
            decreases pieces.len() - at,
        {
            ids.push(pieces[at].id);
            weights.push(weight(pieces[at].count, total));
            assert(v.ids.take(at + 1) =~= v.ids.take(at as int).push(v.ids[at as int]));
            assert(v.weights.take(at + 1) =~= v.weights.take(at as int).push(
                v.weights[at as int],
            ));
            at += 1;
        }
        assert(v.ids.take(pieces.len() as int) =~= v.ids);
        assert(v.weights.take(pieces.len() as int) =~= v.weights);
        let vocab_size: usize = pieces.len() + RESERVED;
        Ok(Tokenizer { pieces: bytes, ids, weights, index_of_id, empty_piece, searcher, vocab_size })
    }
}

/// The bytes of the pieces of a table, by number.
fn piece_bytes(pieces: &Pieces) -> (bytes: Vec<Vec<u8>>)
    ensures
        bytes_of(bytes@) == vocabulary_of(views_of(pieces@)).pieces,
{
    let mut bytes: Vec<Vec<u8>> = Vec::new();
    let mut at: usize = 0;
    while at < pieces.len()
        invariant
            at <= pieces.len(),
            bytes.len() == at,
            forall|k: int| 0 <= k < at ==> (#[trigger] bytes[k])@ == pieces[k].bytes@,
        decreases pieces.len() - at,
    {
        bytes.push(slice_to_vec(pieces[at].bytes.as_slice()));
        at += 1;
    }
    assert(bytes_of(bytes@) =~= vocabulary_of(views_of(pieces@)).pieces);
    bytes
}

/// A tokenizer together with the table of pieces that it was built from.
pub struct OwnedTokenizer {
    pieces: Pieces,
    tokenizer: Tokenizer,
}

impl Tokenize for OwnedTokenizer {
    closed spec fn vocabulary(&self) -> Vocabulary {
        self.tokenizer.vocabulary()
    }

    closed spec fn wf(&self) -> bool {
        &&& self.tokenizer.wf()
        &&& self.tokenizer.vocabulary() == vocabulary_of(views_of(self.pieces@))
    }

    proof fn lemma_vocabulary_wf(&self) {
        self.tokenizer.lemma_vocabulary_wf();
    }

    fn tokenize<'s>(&self, text: &'s [u8]) -> (tokens: Vec<&'s [u8]>) {
        self.tokenizer.tokenize(text)
    }

    fn piece_to_id(&self, piece: &[u8]) -> (id: Result<usize, Error>) {
        self.tokenizer.piece_to_id(piece)
    }

    fn id_to_piece(&self, id: usize) -> (piece: Result<&[u8], Error>) {
        self.tokenizer.id_to_piece(id)
    }

    fn vocab_size(&self) -> (size: usize) {
        self.tokenizer.vocab_size()
    }
}

impl OwnedTokenizer {
    /// The table of pieces that the tokenizer was built from.
    pub closed spec fn table(&self) -> Seq<Piece> {
        self.pieces@
    }

    /// The table of pieces that the tokenizer was built from.
    pub fn pieces(&self) -> (pieces: &Pieces)
        ensures
            pieces@ == self.table(),
    {
        &self.pieces
    }

    /// The tokenizer over the table.
    pub fn tokenizer(&self) -> (tokenizer: &Tokenizer)
        requires
            self.wf(),
        ensures
            tokenizer.wf(),
            tokenizer.vocabulary() == self.vocabulary(),
    {
        &self.tokenizer
    }
}

/// Builds a tokenizer that keeps the table of pieces it is built from. It
/// succeeds exactly where `Tokenizer::from_pieces` succeeds on the table, with
/// the same vocabulary, and fails with the same error where that fails.
pub fn make_owned_tokenizer(pieces: Pieces) -> (built: Result<OwnedTokenizer, Error>)
    requires
        pieces.len() + RESERVED <= usize::MAX,
    ensures
        match built {
            Ok(owned) => owned.wf() && owned.table() == pieces@ && owned.vocabulary()
                == vocabulary_of(views_of(pieces@)) && construction_fault(views_of(pieces@))
                is None,
            Err(e) => construction_fault(views_of(pieces@)) == Some(e),
        },
{
    match Tokenizer::from_pieces(&pieces) {
        Ok(tokenizer) => Ok(OwnedTokenizer { pieces, tokenizer }),
        Err(e) => Err(e),
    }
}

} // verus!
