//! The vocabulary as contracts speak of it: the pieces, their ids and their
//! weights, and what tokenizing, encoding and decoding mean over them.

use crate::common::BOS;
use crate::common::EOS;
use crate::common::PAD;
use crate::common::is_reserved_piece;
use crate::common::lemma_reserved_pieces_differ;
use crate::common::reserved_id;
use crate::common::RESERVED;
use crate::error::Error;
use crate::matcher::overlapping_matches;
use crate::model::PieceView;
use crate::segment::at_least;
use crate::segment::concat;
use crate::segment::distinct;
use crate::segment::is_decomposition;
use crate::segment::is_plain;
use crate::segment::lemma_trace_decomposes;
use crate::segment::scan;
use crate::segment::token_weight;
use crate::segment::tokens_at;
use crate::segment::total;
use crate::segment::trace;
use crate::utils::lemma_lines_divide;
use crate::utils::lines_of;
use crate::weight::weight_of;
use vstd::prelude::*;
use vstd::utf8::decode_utf8;
use vstd::utf8::valid_utf8;

verus! {

/// The pieces of a vocabulary, by number: piece `k` has the bytes
/// `pieces[k]`, the id `ids[k]` and the weight `weights[k]`. A piece without a
/// weight is known by its id and never chosen as a token.
pub struct Vocabulary {
    pub pieces: Seq<Seq<u8>>,
    pub ids: Seq<usize>,
    pub weights: Seq<Option<i64>>,
}

/// The sum of the counts of `pieces`.
pub open spec fn total_count(pieces: Seq<PieceView>) -> nat
    decreases pieces.len(),
{
    if pieces.len() == 0 {
        0
    } else {
        total_count(pieces.drop_last()) + pieces.last().count as nat
    }
}

/// The vocabulary that a table of pieces stands for. The weight of a piece is
/// the logarithm of its share in the sum of all counts.
pub open spec fn vocabulary_of(pieces: Seq<PieceView>) -> Vocabulary {
    Vocabulary {
        pieces: Seq::new(pieces.len(), |k: int| pieces[k].bytes),
        ids: Seq::new(pieces.len(), |k: int| pieces[k].id),
        weights: Seq::new(
            pieces.len(),
            |k: int| weight_of(pieces[k].count as nat, total_count(pieces)),
        ),
    }
}

/// The sum of two weights, where `None` stands below every number.
pub open spec fn add_weights(a: Option<int>, b: Option<int>) -> Option<int> {
    match (a, b) {
        (Some(x), Some(y)) => Some(x + y),
        _ => None,
    }
}

/// The tokens of `lines` where line `i` is cut at the offsets `parts[i]`.
pub open spec fn divided(lines: Seq<Seq<u8>>, parts: Seq<Seq<usize>>) -> Seq<Seq<u8>>
    decreases lines.len(),
{
    if lines.len() == 0 || parts.len() != lines.len() {
        Seq::empty()
    } else {
        divided(lines.drop_last(), parts.drop_last()) + tokens_at(lines.last(), parts.last())
    }
}

/// The first token of an encoding that marks its beginning.
pub open spec fn opening(add_bos: bool) -> Seq<usize> {
    if add_bos {
        seq![1usize]
    } else {
        Seq::empty()
    }
}

/// The last token of an encoding that marks its end.
pub open spec fn closing(add_eos: bool) -> Seq<usize> {
    if add_eos {
        seq![2usize]
    } else {
        Seq::empty()
    }
}

impl Vocabulary {
    /// No id of a piece is reserved.
    pub open spec fn ids_free(self) -> bool {
        forall|k: int| 0 <= k < self.ids.len() ==> #[trigger] self.ids[k] >= RESERVED
    }

    /// No two pieces have the same id.
    pub open spec fn ids_distinct(self) -> bool {
        forall|j: int, k: int| 0 <= j < k < self.ids.len() ==> self.ids[j] != self.ids[k]
    }

    /// No piece is the bytes of a reserved token.
    pub open spec fn pieces_free(self) -> bool {
        forall|k: int| 0 <= k < self.pieces.len() ==> !is_reserved_piece(#[trigger] self.pieces[k])
    }

    /// The vocabulary is valid: every piece has one id of its own above the
    /// reserved ones, no piece is the bytes of a reserved token, no two pieces
    /// are the same bytes, and its size fits the machine's word. So every id
    /// leads to one piece and that piece leads back to the id.
    pub open spec fn wf(self) -> bool {
        &&& self.ids.len() == self.pieces.len()
        &&& self.weights.len() == self.pieces.len()
        &&& self.pieces.len() + RESERVED <= usize::MAX
        &&& self.ids_free()
        &&& self.ids_distinct()
        &&& self.pieces_free()
        &&& distinct(self.pieces)
    }

    /// The text that `ids` stand for: the decoded bytes read as UTF-8, and
    /// `Error::FromUtf8` where they are not UTF-8.
    pub open spec fn decoding_text(self, ids: Seq<usize>) -> Result<Seq<char>, Error> {
        match self.decoding(ids) {
            Ok(bytes) => if valid_utf8(bytes) {
                Ok(decode_utf8(bytes))
            } else {
                Err(Error::FromUtf8)
            },
            Err(e) => Err(e),
        }
    }

    /// What keeps a tokenizer from being built on the vocabulary, if anything
    /// does: a reserved id, an id that two pieces share, a piece that is the
    /// bytes of a reserved token, a searcher that cannot be built, which
    /// includes the one over no pieces at all, or two pieces of the same bytes,
    /// looked for in this order.
    pub open spec fn fault(self, searcher_built: bool) -> Option<Error> {
        if !self.ids_free() {
            Some(Error::ReservedId)
        } else if !self.ids_distinct() {
            Some(Error::DuplicateId)
        } else if !self.pieces_free() {
            Some(Error::ReservedPiece)
        } else if self.pieces.len() == 0 || !searcher_built {
            Some(Error::AhoCorasickBuild)
        } else if !distinct(self.pieces) {
            Some(Error::DuplicatePiece)
        } else {
            None
        }
    }

    /// The size of the vocabulary: its pieces and the three reserved tokens.
    pub open spec fn size(self) -> nat {
        self.pieces.len() + RESERVED as nat
    }

    /// Whether `piece` is piece number `k`.
    pub open spec fn is_piece(self, piece: Seq<u8>, k: int) -> bool {
        0 <= k < self.pieces.len() && k < self.ids.len() && self.pieces[k] == piece
    }

    /// Whether `id` is the id of piece number `k`.
    pub open spec fn is_id(self, id: usize, k: int) -> bool {
        0 <= k < self.pieces.len() && k < self.ids.len() && self.ids[k] == id
    }

    /// The id of `piece`, if it has one: 0, 1 and 2 for `<pad>`, `<bos>` and
    /// `<eos>`, and its own id for a piece of the vocabulary.
    pub open spec fn piece_id(self, piece: Seq<u8>) -> Option<usize> {
        match reserved_id(piece) {
            Some(id) => Some(id),
            None => if exists|k: int| self.is_piece(piece, k) {
                Some(self.ids[choose|k: int| self.is_piece(piece, k)])
            } else {
                None
            },
        }
    }

    /// The piece with the id `id`, if there is one: `<pad>`, `<bos>` and
    /// `<eos>` for the reserved ids 0, 1 and 2.
    pub open spec fn piece_of(self, id: usize) -> Option<Seq<u8>> {
        if id == 0 {
            Some(PAD@)
        } else if id == 1 {
            Some(BOS@)
        } else if id == 2 {
            Some(EOS@)
        } else if exists|k: int| self.is_id(id, k) {
            Some(self.pieces[choose|k: int| self.is_id(id, k)])
        } else {
            None
        }
    }

    /// The cut offsets of one line: those of the best-scoring division into
    /// pieces, over the matches that the searcher reports in the line.
    pub open spec fn line_cuts(self, line: Seq<u8>) -> Seq<usize> {
        trace(
            scan(line.len(), overlapping_matches(self.pieces, line), self.weights).route,
            line.len() as usize,
        )
    }

    /// The cuts of `line` are the best there are: no way to divide the line
    /// into tokens has a higher total weight, where a token that is no weighted
    /// piece puts a division below every division into weighted pieces.
    pub open spec fn line_optimal(self, line: Seq<u8>) -> bool {
        forall|other: Seq<usize>|
            is_decomposition(other, line.len() as int) ==> at_least(
                total(self.pieces, self.weights, line, self.line_cuts(line)),
                #[trigger] total(self.pieces, self.weights, line, other),
            )
    }

    /// The cuts of every line of `text` are the best there are.
    pub open spec fn lines_optimal(self, text: Seq<u8>) -> bool {
        forall|i: int|
            0 <= i < lines_of(text, 0).len() ==> self.line_optimal(#[trigger] lines_of(text, 0)[i])
    }

    /// Every token of `text` is a piece of the vocabulary or a single byte.
    pub open spec fn tokens_plain(self, text: Seq<u8>) -> bool {
        forall|i: int|
            0 <= i < self.tokens(text).len() ==> is_plain(
                self.pieces,
                #[trigger] self.tokens(text)[i],
            )
    }

    /// The total weight of `tokens`: `None`, which stands below every number,
    /// as soon as one of them is no weighted piece.
    pub open spec fn weight_sum(self, tokens: Seq<Seq<u8>>) -> Option<int>
        decreases tokens.len(),
    {
        if tokens.len() == 0 {
            Some(0int)
        } else {
            add_weights(
                self.weight_sum(tokens.drop_last()),
                token_weight(self.pieces, self.weights, tokens.last()),
            )
        }
    }

    /// The tokens of one line.
    pub open spec fn line_tokens(self, line: Seq<u8>) -> Seq<Seq<u8>> {
        tokens_at(line, self.line_cuts(line))
    }

    /// The tokens of `lines`, line after line.
    pub open spec fn tokens_of_lines(self, lines: Seq<Seq<u8>>) -> Seq<Seq<u8>>
        decreases lines.len(),
    {
        if lines.len() == 0 {
            Seq::empty()
        } else {
            self.tokens_of_lines(lines.drop_last()) + self.line_tokens(lines.last())
        }
    }

    /// The tokens of `text`: those of its lines, in order.
    pub open spec fn tokens(self, text: Seq<u8>) -> Seq<Seq<u8>> {
        self.tokens_of_lines(lines_of(text, 0))
    }

    /// The ids of `pieces`, or the error of the first that is no piece.
    pub open spec fn ids_of(self, pieces: Seq<Seq<u8>>) -> Result<Seq<usize>, Error>
        decreases pieces.len(),
    {
        if pieces.len() == 0 {
            Ok(Seq::empty())
        } else {
            match (self.ids_of(pieces.drop_last()), self.piece_id(pieces.last())) {
                (Ok(ids), Some(id)) => Ok(ids.push(id)),
                (Ok(_), None) => Err(Error::UnknownPiece),
                (Err(e), _) => Err(e),
            }
        }
    }

    /// The pieces of `ids`, or the error of the first id that has none.
    pub open spec fn pieces_of(self, ids: Seq<usize>) -> Result<Seq<Seq<u8>>, Error>
        decreases ids.len(),
    {
        if ids.len() == 0 {
            Ok(Seq::empty())
        } else {
            match (self.pieces_of(ids.drop_last()), self.piece_of(ids.last())) {
                (Ok(pieces), Some(piece)) => Ok(pieces.push(piece)),
                (Ok(_), None) => Err(Error::UnknownId(ids.last())),
                (Err(e), _) => Err(e),
            }
        }
    }

    /// The ids of the tokens of `text`, with id 1 in front if `add_bos` and id
    /// 2 behind if `add_eos`; or the error of the first token that is no
    /// piece.
    pub open spec fn encoding(self, text: Seq<u8>, add_bos: bool, add_eos: bool) -> Result<
        Seq<usize>,
        Error,
    > {
        match self.ids_of(self.tokens(text)) {
            Ok(ids) => Ok(opening(add_bos) + ids + closing(add_eos)),
            Err(e) => Err(e),
        }
    }

    /// The bytes that `ids` stand for: the pieces of the ids above the
    /// reserved ones, joined in order; or the error of the first such id that
    /// has no piece.
    pub open spec fn decoding(self, ids: Seq<usize>) -> Result<Seq<u8>, Error>
        decreases ids.len(),
    {
        if ids.len() == 0 {
            Ok(Seq::empty())
        } else {
            match self.decoding(ids.drop_last()) {
                Ok(bytes) => if ids.last() < RESERVED {
                    Ok(bytes)
                } else {
                    match self.piece_of(ids.last()) {
                        Some(piece) => Ok(bytes + piece),
                        None => Err(Error::UnknownId(ids.last())),
                    }
                },
                Err(e) => Err(e),
            }
        }
    }
}

/// Joining two rows of parts one after the other joins what each row joins.
pub proof fn lemma_concat_add(a: Seq<Seq<u8>>, b: Seq<Seq<u8>>)
    ensures
        concat(a + b) == concat(a) + concat(b),
    decreases b.len(),
{
    if b.len() == 0 {
        assert(a + b =~= a);
        assert(concat(a) + concat(b) =~= concat(a));
    } else {
        lemma_concat_add(a, b.drop_last());
        assert((a + b).drop_last() =~= a + b.drop_last());
        assert((a + b).last() == b.last());
        assert(concat(a + b) =~= concat(a) + concat(b));
    }
}

/// The tokens of a line, joined in order, are the line, and none is empty.
pub proof fn lemma_line_tokens_cover(v: Vocabulary, line: Seq<u8>)
    requires
        line.len() <= usize::MAX,
    ensures
        concat(v.line_tokens(line)) == line,
        forall|i: int| 0 <= i < v.line_tokens(line).len() ==> (#[trigger] v.line_tokens(line)[i]).len() > 0,
{
    let cuts = v.line_cuts(line);
    let route = scan(line.len(), overlapping_matches(v.pieces, line), v.weights).route;
    lemma_trace_decomposes(route, line.len() as usize);
    crate::segment::lemma_tokens_cover(line, cuts);
    assert(line.subrange(0, line.len() as int) =~= line);
    assert forall|i: int| 0 <= i < v.line_tokens(line).len() implies (#[trigger] v.line_tokens(
        line,
    )[i]).len() > 0 by {
        assert(cuts[i] < cuts[i + 1]);
        crate::segment::lemma_cuts_ascend(cuts, i + 1, cuts.len() - 1);
    }
}

/// The tokens of some lines, joined in order, are the lines joined, and none
/// is empty.
pub proof fn lemma_tokens_of_lines_cover(v: Vocabulary, lines: Seq<Seq<u8>>)
    requires
        forall|i: int| 0 <= i < lines.len() ==> (#[trigger] lines[i]).len() <= usize::MAX,
    ensures
        concat(v.tokens_of_lines(lines)) == concat(lines),
        forall|i: int|
            0 <= i < v.tokens_of_lines(lines).len() ==> (#[trigger] v.tokens_of_lines(
                lines,
            )[i]).len() > 0,
    decreases lines.len(),
{
    if lines.len() > 0 {
        lemma_tokens_of_lines_cover(v, lines.drop_last());
        lemma_line_tokens_cover(v, lines.last());
        lemma_concat_add(v.tokens_of_lines(lines.drop_last()), v.line_tokens(lines.last()));
    }
}

/// The tokens of a text, joined in order, are the text: nothing is
/// lost, doubled or moved. No token is empty.
pub proof fn lemma_tokens_cover(v: Vocabulary, text: Seq<u8>)
    requires
        text.len() <= usize::MAX,
    ensures
        concat(v.tokens(text)) == text,
        forall|i: int| 0 <= i < v.tokens(text).len() ==> (#[trigger] v.tokens(text)[i]).len() > 0,
{
    lemma_lines_divide(text, 0);
    let lines = lines_of(text, 0);
    let cuts = crate::utils::line_cuts(text, 0);
    assert forall|i: int| 0 <= i < lines.len() implies (#[trigger] lines[i]).len()
        <= usize::MAX by {
        assert(cuts[i] < cuts[i + 1]);
        crate::segment::lemma_cuts_ascend(cuts, i + 1, cuts.len() - 1);
    }
    lemma_tokens_of_lines_cover(v, lines);
}

/// The tokens of a text depend on the pieces and their weights alone.
pub proof fn lemma_tokens_determined(a: Vocabulary, b: Vocabulary, text: Seq<u8>)
    requires
        a.pieces == b.pieces,
        a.weights == b.weights,
    ensures
        a.tokens(text) == b.tokens(text),
{
    lemma_tokens_of_lines_determined(a, b, lines_of(text, 0));
}

proof fn lemma_tokens_of_lines_determined(a: Vocabulary, b: Vocabulary, lines: Seq<Seq<u8>>)
    requires
        a.pieces == b.pieces,
        a.weights == b.weights,
    ensures
        a.tokens_of_lines(lines) == b.tokens_of_lines(lines),
    decreases lines.len(),
{
    if lines.len() > 0 {
        lemma_tokens_of_lines_determined(a, b, lines.drop_last());
    }
}

/// In a valid vocabulary a piece has the id of its number, and that id leads
/// back to the piece.
pub proof fn lemma_piece_and_id(v: Vocabulary, k: int)
    requires
        v.wf(),
        0 <= k < v.pieces.len(),
    ensures
        v.piece_id(v.pieces[k]) == Some(v.ids[k]),
        v.piece_of(v.ids[k]) == Some(v.pieces[k]),
        v.ids[k] >= RESERVED,
{
    assert(!is_reserved_piece(v.pieces[k]));
    assert(v.is_piece(v.pieces[k], k));
    let j = choose|j: int| v.is_piece(v.pieces[k], j);
    if j < k {
        assert(v.pieces[j] != v.pieces[k]);
    }
    if k < j {
        assert(v.pieces[k] != v.pieces[j]);
    }
    assert(v.is_id(v.ids[k], k));
    let i = choose|i: int| v.is_id(v.ids[k], i);
    if i < k {
        assert(v.ids[i] != v.ids[k]);
    }
    if k < i {
        assert(v.ids[k] != v.ids[i]);
    }
}

/// Bytes that are no piece of the vocabulary and no piece of a reserved token
/// have no id.
pub proof fn lemma_unknown_piece(v: Vocabulary, piece: Seq<u8>)
    requires
        !is_reserved_piece(piece),
        forall|k: int| 0 <= k < v.pieces.len() ==> v.pieces[k] != piece,
    ensures
        v.piece_id(piece) is None,
{
}

/// The size of the vocabulary of a table is the number of its pieces and
/// three.
pub proof fn lemma_vocabulary_size(pieces: Seq<PieceView>)
    ensures
        vocabulary_of(pieces).size() == pieces.len() + 3,
{
}

/// Decoding the ids of some tokens, each a piece of the vocabulary or a single
/// byte, gives the tokens joined.
pub proof fn lemma_decoding_of_ids(v: Vocabulary, tokens: Seq<Seq<u8>>)
    requires
        v.wf(),
        forall|i: int| 0 <= i < tokens.len() ==> is_plain(v.pieces, #[trigger] tokens[i]),
        v.ids_of(tokens) is Ok,
    ensures
        v.decoding(v.ids_of(tokens).unwrap()) == Ok::<Seq<u8>, Error>(concat(tokens)),
    decreases tokens.len(),
{
    if tokens.len() > 0 {
        let ids = v.ids_of(tokens).unwrap();
        let token = tokens.last();
        assert forall|i: int| 0 <= i < tokens.drop_last().len() implies is_plain(
            v.pieces,
            #[trigger] tokens.drop_last()[i],
        ) by {
            assert(tokens.drop_last()[i] == tokens[i]);
        }
        lemma_decoding_of_ids(v, tokens.drop_last());
        lemma_reserved_pieces_differ();
        assert(is_plain(v.pieces, token));
        assert(!is_reserved_piece(token)) by {
            if is_reserved_piece(token) {
                let p = choose|p: int| 0 <= p < v.pieces.len() && v.pieces[p] == token;
                assert(!is_reserved_piece(v.pieces[p]));
            }
        }
        let k = choose|k: int| v.is_piece(token, k);
        lemma_piece_and_id(v, k);
        assert(ids.drop_last() =~= v.ids_of(tokens.drop_last()).unwrap());
    }
}

/// Decoding passes over reserved ids at the front.
pub proof fn lemma_decoding_skips_front(v: Vocabulary, front: Seq<usize>, ids: Seq<usize>)
    requires
        forall|i: int| 0 <= i < front.len() ==> front[i] < RESERVED,
    ensures
        v.decoding(front + ids) == v.decoding(ids),
    decreases ids.len(), front.len(),
{
    let all = front + ids;
    if ids.len() > 0 {
        assert(all.drop_last() =~= front + ids.drop_last());
        lemma_decoding_skips_front(v, front, ids.drop_last());
    } else if front.len() > 0 {
        assert(all =~= front);
        lemma_decoding_skips_front(v, front.drop_last(), ids);
        assert(front.drop_last() + ids =~= front.drop_last());
    } else {
        assert(all =~= ids);
    }
}

/// Where every token of a text is a piece or a single byte, which is what
/// tokenizing establishes, decoding what encoding gave returns the text, with
/// or without the tokens that mark its beginning and end.
pub proof fn lemma_round_trip(v: Vocabulary, text: Seq<u8>, add_bos: bool, add_eos: bool)
    requires
        v.wf(),
        text.len() <= usize::MAX,
        v.tokens_plain(text),
        v.encoding(text, add_bos, add_eos) is Ok,
    ensures
        v.decoding(v.encoding(text, add_bos, add_eos).unwrap()) == Ok::<Seq<u8>, Error>(text),
{
    let tokens = v.tokens(text);
    let body = v.ids_of(tokens).unwrap();
    lemma_tokens_cover(v, text);
    lemma_decoding_of_ids(v, tokens);
    lemma_decoding_skips_front(v, opening(add_bos), body);
    let all = opening(add_bos) + body + closing(add_eos);
    if add_eos {
        assert(all.drop_last() =~= opening(add_bos) + body);
    } else {
        assert(all =~= opening(add_bos) + body);
    }
}

/// An encoding with both marks begins with id 1 and ends with
/// id 2.
pub proof fn lemma_encoding_framed(v: Vocabulary, text: Seq<u8>)
    requires
        v.encoding(text, true, true) is Ok,
    ensures
        v.encoding(text, true, true).unwrap().len() >= 2,
        v.encoding(text, true, true).unwrap().first() == 1,
        v.encoding(text, true, true).unwrap().last() == 2,
{
}

/// Decoding drops every reserved id: it gives what it gives
/// for the ids above the reserved ones alone.
pub proof fn lemma_decoding_drops_reserved(v: Vocabulary, ids: Seq<usize>)
    ensures
        v.decoding(ids) == v.decoding(ids.filter(|id: usize| id >= RESERVED)),
    decreases ids.len(),
{
    reveal(Seq::filter);
    let kept = ids.filter(|id: usize| id >= RESERVED);
    if ids.len() > 0 {
        lemma_decoding_drops_reserved(v, ids.drop_last());
        let shorter = ids.drop_last().filter(|id: usize| id >= RESERVED);
        if ids.last() >= RESERVED {
            assert(kept.drop_last() =~= shorter);
        }
    }
}

/// The total weight of two rows of tokens, one after the other, is the sum of
/// their total weights.
pub proof fn lemma_weight_sum_add(v: Vocabulary, a: Seq<Seq<u8>>, b: Seq<Seq<u8>>)
    ensures
        v.weight_sum(a + b) == add_weights(v.weight_sum(a), v.weight_sum(b)),
    decreases b.len(),
{
    if b.len() == 0 {
        assert(a + b =~= a);
    } else {
        lemma_weight_sum_add(v, a, b.drop_last());
        assert((a + b).drop_last() =~= a + b.drop_last());
        assert((a + b).last() == b.last());
    }
}

/// The total weight of the tokens that cuts divide a line into is the total
/// weight of the cuts.
pub proof fn lemma_weight_sum_of_cuts(v: Vocabulary, line: Seq<u8>, cuts: Seq<usize>)
    requires
        cuts.len() >= 1,
    ensures
        v.weight_sum(tokens_at(line, cuts)) == total(v.pieces, v.weights, line, cuts),
    decreases cuts.len(),
{
    let tokens = tokens_at(line, cuts);
    if cuts.len() > 1 {
        lemma_weight_sum_of_cuts(v, line, cuts.drop_last());
        assert(tokens.drop_last() =~= tokens_at(line, cuts.drop_last()));
        let n = cuts.len() as int;
        assert(tokens.last() == line.subrange(cuts[n - 2] as int, cuts[n - 1] as int));
    }
}

/// Where the cuts of every line are the best there are, so are the tokens of
/// the lines together: no division of each line by itself has a higher total
/// weight.
pub proof fn lemma_lines_optimal(v: Vocabulary, lines: Seq<Seq<u8>>, parts: Seq<Seq<usize>>)
    requires
        parts.len() == lines.len(),
        forall|i: int| 0 <= i < lines.len() ==> v.line_optimal(#[trigger] lines[i]),
        forall|i: int|
            0 <= i < lines.len() ==> is_decomposition(#[trigger] parts[i], lines[i].len() as int),
    ensures
        at_least(v.weight_sum(v.tokens_of_lines(lines)), v.weight_sum(divided(lines, parts))),
    decreases lines.len(),
{
    if lines.len() > 0 {
        let line = lines.last();
        let other = parts.last();
        lemma_lines_optimal(v, lines.drop_last(), parts.drop_last());
        assert(v.line_optimal(line));
        assert(is_decomposition(other, line.len() as int));
        let route = scan(line.len(), overlapping_matches(v.pieces, line), v.weights).route;
        lemma_trace_decomposes(route, line.len() as usize);
        lemma_weight_sum_of_cuts(v, line, v.line_cuts(line));
        lemma_weight_sum_of_cuts(v, line, other);
        lemma_weight_sum_add(v, v.tokens_of_lines(lines.drop_last()), v.line_tokens(line));
        lemma_weight_sum_add(
            v,
            divided(lines.drop_last(), parts.drop_last()),
            tokens_at(line, other),
        );
    }
}

/// Where the cuts of every line of a text are the best there are,
/// which is what tokenizing establishes, the tokens of the text have the
/// highest total weight of all divisions of the text that divide each line by
/// itself. A token that is no weighted piece puts a division below every
/// division into weighted pieces.
pub proof fn lemma_tokens_optimal(v: Vocabulary, text: Seq<u8>, parts: Seq<Seq<usize>>)
    requires
        v.lines_optimal(text),
        parts.len() == lines_of(text, 0).len(),
        forall|i: int|
            0 <= i < parts.len() ==> is_decomposition(
                #[trigger] parts[i],
                lines_of(text, 0)[i].len() as int,
            ),
    ensures
        at_least(v.weight_sum(v.tokens(text)), v.weight_sum(divided(lines_of(text, 0), parts))),
{
    lemma_lines_optimal(v, lines_of(text, 0), parts);
}

/// No piece of a table was counted more often than all of them together.
pub proof fn lemma_count_in_total(pieces: Seq<PieceView>, k: int)
    requires
        0 <= k < pieces.len(),
    ensures
        pieces[k].count <= total_count(pieces),
    decreases pieces.len(),
{
    if k < pieces.len() - 1 {
        lemma_count_in_total(pieces.drop_last(), k);
    }
}

/// The counts of a table add up to less than the square of the machine's
/// largest word.
pub proof fn lemma_total_count_bound(pieces: Seq<PieceView>)
    ensures
        total_count(pieces) <= pieces.len() * usize::MAX,
    decreases pieces.len(),
{
    if pieces.len() > 0 {
        lemma_total_count_bound(pieces.drop_last());
        assert((pieces.len() - 1) * usize::MAX + usize::MAX == pieces.len() * usize::MAX)
            by (nonlinear_arith);
    }
}

/// In the vocabulary of a table every piece that was counted has a weight,
/// and no weight is above zero: a weight is the logarithm of a share.
pub proof fn lemma_weights_not_positive(pieces: Seq<PieceView>, k: int)
    requires
        pieces.len() <= usize::MAX,
        0 <= k < pieces.len(),
    ensures
        pieces[k].count > 0 <==> vocabulary_of(pieces).weights[k] is Some,
        vocabulary_of(pieces).weights[k] matches Some(w) ==> w <= 0,
{
    lemma_count_in_total(pieces, k);
    lemma_total_count_bound(pieces);
    assert(pieces.len() * usize::MAX <= u128::MAX) by (nonlinear_arith)
        requires
            pieces.len() <= usize::MAX,
            usize::MAX <= 0xffff_ffff_ffff_ffff,
            u128::MAX == 0xffff_ffff_ffff_ffff_ffff_ffff_ffff_ffff,
    ;
    if pieces[k].count > 0 {
        crate::weight::lemma_weight_not_positive(pieces[k].count as nat, total_count(pieces));
    }
}

/// Where no id of a valid vocabulary reaches its size, the ids are used up:
/// every id below the size has a piece, and each piece has one of them.
pub proof fn lemma_dense_ids(v: Vocabulary, id: usize)
    requires
        v.wf(),
        forall|k: int| 0 <= k < v.ids.len() ==> #[trigger] v.ids[k] < v.size(),
        id < v.size(),
    ensures
        v.piece_of(id) is Some,
{
    if id >= RESERVED {
        let n = v.ids.len() as int;
        let ints = Seq::new(v.ids.len(), |k: int| v.ids[k] as int);
        assert forall|j: int, k: int| 0 <= j < ints.len() && 0 <= k < ints.len() && j != k implies ints[j]
            != ints[k] by {
            if j < k {
                assert(v.ids[j] != v.ids[k]);
            } else {
                assert(v.ids[k] != v.ids[j]);
            }
        }
        ints.unique_seq_to_set();
        let used = ints.to_set();
        let all = vstd::set_lib::set_int_range(RESERVED as int, n + RESERVED);
        vstd::set_lib::lemma_int_range(RESERVED as int, n + RESERVED);
        assert forall|x: int| used.contains(x) implies all.contains(x) by {
            let k = choose|k: int| 0 <= k < ints.len() && ints[k] == x;
            assert(v.ids[k] >= RESERVED);
            assert(v.ids[k] < v.size());
        }
        vstd::set_lib::lemma_len_subset(used, all);
        vstd::set_lib::lemma_subset_equality(used, all);
        assert(all.contains(id as int));
        assert(used.contains(id as int));
        let k = choose|k: int| 0 <= k < ints.len() && ints[k] == id as int;
        assert(v.is_id(id, k));
    }
}

/// In a valid vocabulary the piece of an id leads back to the id.
pub proof fn lemma_id_and_back(v: Vocabulary, id: usize)
    requires
        v.wf(),
        v.piece_of(id) is Some,
    ensures
        v.piece_id(v.piece_of(id).unwrap()) == Some(id),
{
    lemma_reserved_pieces_differ();
    if id >= RESERVED {
        let k = choose|k: int| v.is_id(id, k);
        lemma_piece_and_id(v, k);
    }
}

/// In a valid vocabulary the id of a piece leads back to the piece.
pub proof fn lemma_piece_and_back(v: Vocabulary, piece: Seq<u8>)
    requires
        v.wf(),
        v.piece_id(piece) is Some,
    ensures
        v.piece_of(v.piece_id(piece).unwrap()) == Some(piece),
{
    lemma_reserved_pieces_differ();
    if reserved_id(piece) is None {
        let k = choose|k: int| v.is_piece(piece, k);
        lemma_piece_and_id(v, k);
    }
}

/// In a valid vocabulary two ids that have pieces have different pieces.
pub proof fn lemma_pieces_differ(v: Vocabulary, a: usize, b: usize)
    requires
        v.wf(),
        a != b,
        v.piece_of(a) is Some,
        v.piece_of(b) is Some,
    ensures
        v.piece_of(a) != v.piece_of(b),
{
    lemma_id_and_back(v, a);
    lemma_id_and_back(v, b);
}

} // verus!
