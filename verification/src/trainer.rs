//! The settings of training, and the counting of byte n-grams that training
//! starts from.

use crate::common::same_bytes;
use vstd::prelude::*;

verus! {

/// The settings of a training run.
pub struct Trainer {
    order: usize,
    max_vocab_size: Vec<usize>,
    max_piece_length: usize,
    min_count: usize,
}

/// The settings as contracts speak of them.
pub struct TrainerView {
    pub order: usize,
    pub max_vocab_size: Seq<usize>,
    pub max_piece_length: usize,
    pub min_count: usize,
}

impl View for Trainer {
    type V = TrainerView;

    closed spec fn view(&self) -> TrainerView {
        TrainerView {
            order: self.order,
            max_vocab_size: self.max_vocab_size@,
            max_piece_length: self.max_piece_length,
            min_count: self.min_count,
        }
    }
}

/// How often one n-gram was seen.
pub struct NgramCount<'a> {
    pub gram: &'a [u8],
    pub count: usize,
}

/// Whether `gram` stands in `text` at offset `at`. The empty n-gram stands at
/// every offset before the end of the text.
pub open spec fn stands_at(text: Seq<u8>, gram: Seq<u8>, at: int) -> bool {
    0 <= at < text.len() && at + gram.len() <= text.len() && text.subrange(
        at,
        at + gram.len(),
    ) == gram
}

/// At how many offsets below `upto` `gram` stands in `text`.
pub open spec fn windows_in(text: Seq<u8>, gram: Seq<u8>, upto: int) -> nat
    decreases upto,
{
    if upto <= 0 {
        0
    } else {
        windows_in(text, gram, upto - 1) + if stands_at(text, gram, upto - 1) {
            1nat
        } else {
            0nat
        }
    }
}

/// At how many places `gram` stands in `texts`.
pub open spec fn occurrences(texts: Seq<Seq<u8>>, gram: Seq<u8>) -> nat
    decreases texts.len(),
{
    if texts.len() == 0 {
        0
    } else {
        occurrences(texts.drop_last(), gram) + windows_in(
            texts.last(),
            gram,
            texts.last().len() as int,
        )
    }
}

/// The lengths of `texts` added up.
pub open spec fn total_len(texts: Seq<Seq<u8>>) -> nat
    decreases texts.len(),
{
    if texts.len() == 0 {
        0
    } else {
        total_len(texts.drop_last()) + texts.last().len()
    }
}

/// How often `gram` was seen once the texts `done` and the offsets below
/// `upto` of `text` are counted.
pub open spec fn seen(done: Seq<Seq<u8>>, text: Seq<u8>, upto: int, gram: Seq<u8>) -> nat {
    occurrences(done, gram) + windows_in(text, gram, upto)
}

/// `table` holds the n-grams of `n` bytes that were seen, each once and with
/// the number of times it was seen.
pub open spec fn tallies<'a>(
    table: Seq<NgramCount<'a>>,
    done: Seq<Seq<u8>>,
    text: Seq<u8>,
    upto: int,
    n: int,
) -> bool {
    &&& forall|e: int|
        0 <= e < table.len() ==> (#[trigger] table[e]).gram@.len() == n && table[e].count > 0
            && table[e].count == seen(done, text, upto, table[e].gram@)
    &&& forall|d: int, e: int|
        0 <= d < e < table.len() ==> (#[trigger] table[d]).gram@ != (#[trigger] table[e]).gram@
    &&& forall|gram: Seq<u8>|
        gram.len() == n && #[trigger] seen(done, text, upto, gram) > 0 ==> exists|e: int|
            0 <= e < table.len() && (#[trigger] table[e]).gram@ == gram
}

/// `table` counts the n-grams of `n` bytes of `texts`: it holds each n-gram
/// that stands somewhere in `texts` once, with the number of places where it
/// stands, and nothing else.
pub open spec fn counts_grams<'a>(table: Seq<NgramCount<'a>>, texts: Seq<Seq<u8>>, n: int) -> bool {
    tallies(table, texts, Seq::empty(), 0, n)
}

/// Every n-gram of up to `order` bytes that starts in a text ends in it: the
/// order is one at most, or every text is empty.
pub open spec fn windows_fit(texts: Seq<Seq<u8>>, order: usize) -> bool {
    forall|t: int| 0 <= t < texts.len() ==> (#[trigger] texts[t]).len() == 0 || order <= 1
}

/// The byte strings that `texts` show.
pub open spec fn texts_of(texts: Seq<&[u8]>) -> Seq<Seq<u8>> {
    Seq::new(texts.len(), |i: int| texts[i]@)
}

impl Default for Trainer {
    /// The usual settings: n-grams of up to 6 bytes, one vocabulary of 10000
    /// pieces, pieces of up to 36 bytes, and a count of at least 2.
    fn default() -> (trainer: Self)
        ensures
            trainer@.order == 6,
            trainer@.max_vocab_size == seq![10000usize],
            trainer@.max_piece_length == 36,
            trainer@.min_count == 2,
    {
        let mut sizes: Vec<usize> = Vec::new();
        sizes.push(10000);
        assert(sizes@ =~= seq![10000usize]);
        Self { order: 6, max_vocab_size: sizes, max_piece_length: 36, min_count: 2 }
    }
}

impl Trainer {
    /// The longest n-gram that is counted.
    pub fn order(&self) -> (order: usize)
        ensures
            order == self@.order,
    {
        self.order
    }

    /// The sizes of the vocabularies to train, one after another.
    pub fn max_vocab_size(&self) -> (sizes: &[usize])
        ensures
            sizes@ == self@.max_vocab_size,
    {
        self.max_vocab_size.as_slice()
    }

    /// The most bytes that a piece may have.
    pub fn max_piece_length(&self) -> (length: usize)
        ensures
            length == self@.max_piece_length,
    {
        self.max_piece_length
    }

    /// The least count with which an n-gram is kept.
    pub fn min_count(&self) -> (count: usize)
        ensures
            count == self@.min_count,
    {
        self.min_count
    }

    /// The settings as given.
    pub fn new(
        order: usize,
        max_vocab_size: &[usize],
        max_piece_length: usize,
        min_count: usize,
    ) -> (trainer: Self)
        ensures
            trainer@.order == order,
            trainer@.max_vocab_size == max_vocab_size@,
            trainer@.max_piece_length == max_piece_length,
            trainer@.min_count == min_count,
    {
        Self {
            order,
            max_vocab_size: vstd::slice::slice_to_vec(max_vocab_size),
            max_piece_length,
            min_count,
        }
    }
}

/// An n-gram stands at fewer offsets below `upto` than there are.
proof fn lemma_windows_bound(text: Seq<u8>, gram: Seq<u8>, upto: int)
    requires
        0 <= upto,
    ensures
        windows_in(text, gram, upto) <= upto,
    decreases upto,
{
    if upto > 0 {
        lemma_windows_bound(text, gram, upto - 1);
    }
}

/// An n-gram stands at no more places than the texts have bytes.
proof fn lemma_occurrences_bound(texts: Seq<Seq<u8>>, gram: Seq<u8>)
    ensures
        occurrences(texts, gram) <= total_len(texts),
    decreases texts.len(),
{
    if texts.len() > 0 {
        lemma_occurrences_bound(texts.drop_last(), gram);
        lemma_windows_bound(texts.last(), gram, texts.last().len() as int);
    }
}

/// The first texts are no longer than all of them.
proof fn lemma_total_len_take(texts: Seq<Seq<u8>>, upto: int)
    requires
        0 <= upto <= texts.len(),
    ensures
        total_len(texts.take(upto)) <= total_len(texts),
    decreases texts.len() - upto,
{
    if upto < texts.len() {
        assert(texts.take(upto + 1).drop_last() =~= texts.take(upto));
        lemma_total_len_take(texts, upto + 1);
    } else {
        assert(texts.take(upto) =~= texts);
    }
}

/// The place of `gram` in `table`, if it has one.
fn place_of<'a>(table: &Vec<NgramCount<'a>>, gram: &[u8]) -> (place: Option<usize>)
    ensures
        match place {
            Some(e) => e < table.len() && table[e as int].gram@ == gram@,
            None => forall|e: int| 0 <= e < table.len() ==> (#[trigger] table[e]).gram@ != gram@,
        },
{
    let mut at: usize = 0;
    while at < table.len()
        invariant
            at <= table.len(),
            forall|e: int| 0 <= e < at ==> (#[trigger] table[e]).gram@ != gram@,
        decreases table.len() - at,
    {
        if same_bytes(table[at].gram, gram) {
            return Some(at);
        }
        at += 1;
    }
    None
}

/// Counts the n-grams of `n` bytes of `texts`.
fn count_grams<'a>(texts: &[&'a [u8]], n: usize) -> (table: Vec<NgramCount<'a>>)
    requires
        total_len(texts_of(texts@)) <= usize::MAX,
        windows_fit(texts_of(texts@), n),
    ensures
        counts_grams(table@, texts_of(texts@), n as int),
{
    let ghost all = texts_of(texts@);
    let mut table: Vec<NgramCount<'a>> = Vec::new();
    let mut t: usize = 0;
    assert(all.take(0) =~= Seq::<Seq<u8>>::empty());
    while t < texts.len()
        invariant
            t <= texts.len(),
            all == texts_of(texts@),
            total_len(all) <= usize::MAX,
            windows_fit(all, n),
            tallies(table@, all.take(t as int), Seq::empty(), 0, n as int),
        decreases texts.len() - t,
    {
        let text: &'a [u8] = texts[t];
        assert(text@ == all[t as int]);
        let ghost done = all.take(t as int);
        assert(all.take(t + 1).drop_last() =~= done);
        assert(all.take(t + 1).last() == text@);
        proof {
            lemma_total_len_take(all, t + 1);
            assert forall|gram: Seq<u8>|
                gram.len() == n && #[trigger] seen(done, text@, 0, gram) > 0 implies exists|e: int|
                0 <= e < table.len() && (#[trigger] table[e]).gram@ == gram by {
                assert(seen(done, Seq::empty(), 0, gram) > 0);
            }
        }
        let mut i: usize = 0;
        while i < text.len()
            invariant
                i <= text.len(),
                text@.len() == 0 || n <= 1,
                total_len(done) + text@.len() <= usize::MAX,
                tallies(table@, done, text@, i as int, n as int),
            decreases text.len() - i,
        {
            let gram: &'a [u8] = &text[i..i + n];
            let ghost before = table@;
            proof {
                lemma_occurrences_bound(done, gram@);
                lemma_windows_bound(text@, gram@, i as int);
                assert(stands_at(text@, gram@, i as int));
                assert(seen(done, text@, i + 1, gram@) == seen(done, text@, i as int, gram@)
                    + 1);
            }
            match place_of(&table, gram) {
                Some(e) => {
                    let entry = NgramCount { gram: table[e].gram, count: table[e].count + 1 };
                    table.set(e, entry);
                    proof {
                        assert forall|d: int| 0 <= d < table.len() implies (
                        #[trigger] table[d]).gram@.len() == n && table[d].count > 0
                            && table[d].count == seen(done, text@, i + 1, table[d].gram@) by {
                            if d != e {
                                assert(before[d].gram@ != before[e as int].gram@);
                                assert(!stands_at(text@, before[d].gram@, i as int));
                            }
                        }
                        assert forall|other: Seq<u8>|
                            other.len() == n && #[trigger] seen(done, text@, i + 1, other)
                                > 0 implies exists|d: int|
                            0 <= d < table.len() && (#[trigger] table[d]).gram@ == other by {
                            if other == gram@ {
                                assert(table[e as int].gram@ == other);
                            } else {
                                assert(!stands_at(text@, other, i as int));
                                assert(seen(done, text@, i as int, other) > 0);
                                let d = choose|d: int|
                                    0 <= d < before.len() && (#[trigger] before[d]).gram@
                                        == other;
                                assert(table[d].gram@ == other);
                            }
                        }
                    }
                },
                None => {
                    assert(seen(done, text@, i as int, gram@) == 0) by {
                        if seen(done, text@, i as int, gram@) > 0 {
                            let d = choose|d: int|
                                0 <= d < before.len() && (#[trigger] before[d]).gram@ == gram@;
                        }
                    }
                    table.push(NgramCount { gram, count: 1 });
                    proof {
                        assert forall|d: int| 0 <= d < table.len() implies (
                        #[trigger] table[d]).gram@.len() == n && table[d].count > 0
                            && table[d].count == seen(done, text@, i + 1, table[d].gram@) by {
                            if d < before.len() {
                                assert(table[d] == before[d]);
                                assert(!stands_at(text@, before[d].gram@, i as int));
                            }
                        }
                        assert forall|other: Seq<u8>|
                            other.len() == n && #[trigger] seen(done, text@, i + 1, other)
                                > 0 implies exists|d: int|
                            0 <= d < table.len() && (#[trigger] table[d]).gram@ == other by {
                            if other == gram@ {
                                assert(table[before.len() as int].gram@ == other);
                            } else {
                                assert(!stands_at(text@, other, i as int));
                                assert(seen(done, text@, i as int, other) > 0);
                                let d = choose|d: int|
                                    0 <= d < before.len() && (#[trigger] before[d]).gram@
                                        == other;
                                assert(table[d].gram@ == other);
                            }
                        }
                    }
                },
            }
            i += 1;
        }
        proof {
            let next = all.take(t + 1);
            assert forall|gram: Seq<u8>|
                seen(next, Seq::empty(), 0, gram) == #[trigger] seen(
                    done,
                    text@,
                    text@.len() as int,
                    gram,
                ) by {}
            assert forall|gram: Seq<u8>|
                gram.len() == n && #[trigger] seen(next, Seq::empty(), 0, gram) > 0 implies exists|
                e: int,
            | 0 <= e < table.len() && (#[trigger] table[e]).gram@ == gram by {
                assert(seen(done, text@, text@.len() as int, gram) > 0);
            }
        }
        t += 1;
    }
    assert(all.take(texts.len() as int) =~= all);
    table
}

impl Trainer {
    /// Counts the byte n-grams of `texts`, for every length from zero up to the
    /// order of the trainer. Table `n` of the result holds each n-gram of `n`
    /// bytes that stands somewhere in `texts` once, with the number of places
    /// where it stands. The empty n-gram stands at every offset of a text.
    ///
    /// An n-gram is taken at every offset of a text, so each must end inside
    /// its text: the order is one at most, unless every text is empty.
    pub fn count_ngrams<'a>(&self, texts: &[&'a [u8]]) -> (tables: Vec<Vec<NgramCount<'a>>>)
        requires
            self@.order < usize::MAX,
            total_len(texts_of(texts@)) <= usize::MAX,
            windows_fit(texts_of(texts@), self@.order),
        ensures
            tables.len() == self@.order + 1,
            forall|n: int|
                0 <= n <= self@.order ==> counts_grams(
                    (#[trigger] tables[n])@,
                    texts_of(texts@),
                    n,
                ),
    {
        let mut tables: Vec<Vec<NgramCount<'a>>> = Vec::new();
        let mut n: usize = 0;
        while n <= self.order
            invariant
                n <= self.order + 1,
                self.order < usize::MAX,
                total_len(texts_of(texts@)) <= usize::MAX,
                windows_fit(texts_of(texts@), self.order),
                tables.len() == n,
                forall|m: int|
                    0 <= m < n ==> counts_grams((#[trigger] tables[m])@, texts_of(texts@), m),
            decreases self.order + 1 - n,
        {
            tables.push(count_grams(texts, n));
            n += 1;
        }
        tables
    }
}

} // verus!
