//! The segmentation engine: a weighted dynamic-programming pass over the byte
//! offsets of one line, followed by a backward walk that reads the cuts off the
//! route table.
//!
//! Offsets run from `0` to the line's length. Both tables hold one entry per
//! non-empty prefix: entry `e - 1` belongs to offset `e`. Offset `0` always has
//! score zero and needs no route.

use vstd::prelude::*;

verus! {

/// One occurrence of a vocabulary piece in a line: the bytes from `start` up to,
/// but not including, `end` are piece number `pattern`.
#[derive(Clone, Copy, Debug, PartialEq, Eq, Structural)]
pub struct Span {
    pub start: usize,
    pub end: usize,
    pub pattern: usize,
}

/// The two tables of the pass. `best[e - 1]` is the highest score of a
/// decomposition of the first `e` bytes into pieces, `None` while no such
/// decomposition is known. `route[e - 1]` is the offset at which the last
/// token of that decomposition starts, or `e` itself while there is none.
pub struct Table {
    pub best: Seq<Option<int>>,
    pub route: Seq<usize>,
}

/// The score of offset `offset`: zero at the start of the line.
pub open spec fn score_at(best: Seq<Option<int>>, offset: int) -> Option<int> {
    if offset == 0 {
        Some(0int)
    } else if 1 <= offset <= best.len() {
        best[offset - 1]
    } else {
        None
    }
}

/// The tables before any span is seen: nothing but the start is reached, and
/// every offset routes to itself.
pub open spec fn initial(len: nat) -> Table {
    Table {
        best: Seq::new(len, |i: int| None::<int>),
        route: Seq::new(len, |i: int| (i + 1) as usize),
    }
}

/// The score that `span` offers to its end offset, where it offers one: the
/// span is non-empty and lies in the line, its piece has a weight, and its
/// start is reached.
pub open spec fn candidate(t: Table, span: Span, weights: Seq<Option<i64>>) -> Option<int> {
    if span.start < span.end <= t.best.len() && span.pattern < weights.len() {
        match (score_at(t.best, span.start as int), weights[span.pattern as int]) {
            (Some(b), Some(w)) => Some(b + w),
            _ => None,
        }
    } else {
        None
    }
}

/// Whether `span` replaces what the tables hold for its end offset: it offers
/// a score, and that score is strictly higher than the one recorded. A tie
/// keeps the span that was seen first.
pub open spec fn improves(t: Table, span: Span, weights: Seq<Option<i64>>) -> bool {
    match candidate(t, span, weights) {
        Some(c) => match t.best[span.end - 1] {
            Some(old) => c > old,
            None => true,
        },
        None => false,
    }
}

/// The tables after one more span.
pub open spec fn relax(t: Table, span: Span, weights: Seq<Option<i64>>) -> Table {
    if improves(t, span, weights) {
        Table {
            best: t.best.update(span.end - 1, candidate(t, span, weights)),
            route: t.route.update(span.end - 1, span.start),
        }
    } else {
        t
    }
}

/// The tables after all of `spans`, taken in order, on a line of `len` bytes.
pub open spec fn scan(len: nat, spans: Seq<Span>, weights: Seq<Option<i64>>) -> Table
    decreases spans.len(),
{
    if spans.len() == 0 {
        initial(len)
    } else {
        relax(scan(len, spans.drop_last(), weights), spans.last(), weights)
    }
}

/// Where the token that ends at `end` starts: at the routed offset if that lies
/// before `end`, else one byte back, so that a byte that no piece covers
/// becomes a token of its own.
pub open spec fn step_back(route: Seq<usize>, end: usize) -> usize {
    if 1 <= end <= route.len() && route[end - 1] < end {
        route[end - 1]
    } else {
        (end - 1) as usize
    }
}

/// The cut offsets of the first `end` bytes, ascending from `0` to `end`, read
/// off `route` from the back.
pub open spec fn trace(route: Seq<usize>, end: usize) -> Seq<usize>
    decreases end,
{
    if end == 0 {
        seq![0usize]
    } else {
        trace(route, step_back(route, end)).push(end)
    }
}

/// `cuts` divides a text of `len` bytes into non-empty tokens: it starts at
/// `0`, ends at `len` and ascends strictly.
pub open spec fn is_decomposition(cuts: Seq<usize>, len: int) -> bool {
    &&& cuts.len() >= 1
    &&& cuts[0] == 0
    &&& cuts.last() == len
    &&& forall|i: int| 0 <= i < cuts.len() - 1 ==> #[trigger] cuts[i] < cuts[i + 1]
}

/// The tokens that `cuts` divides `text` into.
pub open spec fn tokens_at(text: Seq<u8>, cuts: Seq<usize>) -> Seq<Seq<u8>> {
    Seq::new(
        (cuts.len() - 1) as nat,
        |i: int| text.subrange(cuts[i] as int, cuts[i + 1] as int),
    )
}

/// All of `parts` joined in order.
pub open spec fn concat(parts: Seq<Seq<u8>>) -> Seq<u8>
    decreases parts.len(),
{
    if parts.len() == 0 {
        Seq::empty()
    } else {
        concat(parts.drop_last()) + parts.last()
    }
}

/// Whatever the route table holds, walking it back from `end` gives a
/// decomposition of the first `end` bytes.
pub proof fn lemma_trace_decomposes(route: Seq<usize>, end: usize)
    ensures
        is_decomposition(trace(route, end), end as int),
    decreases end,
{
    if end > 0 {
        let prev = step_back(route, end);
        lemma_trace_decomposes(route, prev);
        let before = trace(route, prev);
        let cuts = before.push(end);
        assert forall|i: int| 0 <= i < cuts.len() - 1 implies #[trigger] cuts[i] < cuts[i + 1] by {
            if i < before.len() - 1 {
                assert(before[i] < before[i + 1]);
            }
        }
    }
}

/// The tokens of a decomposition, joined, are the text up to the last cut.
pub proof fn lemma_tokens_cover(text: Seq<u8>, cuts: Seq<usize>)
    requires
        cuts.len() >= 1,
        cuts[0] == 0,
        cuts.last() <= text.len(),
        forall|i: int| 0 <= i < cuts.len() - 1 ==> #[trigger] cuts[i] < cuts[i + 1],
    ensures
        concat(tokens_at(text, cuts)) == text.subrange(0, cuts.last() as int),
    decreases cuts.len(),
{
    let tokens = tokens_at(text, cuts);
    if cuts.len() == 1 {
        assert(concat(tokens) =~= text.subrange(0, 0));
    } else {
        let shorter = cuts.drop_last();
        assert forall|i: int| 0 <= i < shorter.len() - 1 implies #[trigger] shorter[i] < shorter[i + 1] by {
            assert(cuts[i] < cuts[i + 1]);
        }
        let n = cuts.len() - 2;
        assert(cuts[n] < cuts[n + 1]);
        lemma_tokens_cover(text, shorter);
        assert(tokens.drop_last() =~= tokens_at(text, shorter));
        assert(tokens.last() == text.subrange(cuts[n] as int, cuts[n + 1] as int));
        assert(concat(tokens) =~= text.subrange(0, cuts.last() as int));
    }
}

/// Reads the cut offsets of the first `len` bytes off a route table.
///
/// `route[e - 1]` names the start of the token that ends at offset `e`. An
/// entry that does not lie before its offset, or that is missing, stands for a
/// token of one byte. So every table yields cuts that cover the line.
pub fn backtrack(route: &Vec<usize>, len: usize) -> (cuts: Vec<usize>)
    ensures
        cuts@ == trace(route@, len),
        is_decomposition(cuts@, len as int),
{
    let mut backward: Vec<usize> = Vec::new();
    backward.push(len);
    let mut end: usize = len;
    while end > 0
        invariant
            backward.len() >= 1,
            backward@.last() == end,
            trace(route@, len) == trace(route@, end).drop_last() + backward@.reverse(),
        decreases end,
    {
        let start: usize = if end <= route.len() && route[end - 1] < end {
            route[end - 1]
        } else {
            end - 1
        };
        proof {
            let older = backward@;
            let newer = older.push(start);
            assert(newer.reverse() =~= seq![start] + older.reverse());
            assert(trace(route@, end).drop_last() =~= trace(route@, start));
            assert(trace(route@, start).last() == start) by {
                lemma_trace_decomposes(route@, start);
            }
            assert(trace(route@, start) =~= trace(route@, start).drop_last() + seq![start]);
            assert(trace(route@, len) =~= trace(route@, start).drop_last() + newer.reverse());
        }
        backward.push(start);
        end = start;
    }
    let count: usize = backward.len();
    let mut cuts: Vec<usize> = Vec::new();
    let mut taken: usize = 0;
    while taken < count
        invariant
            count == backward.len(),
            taken <= count,
            cuts.len() == taken,
            forall|i: int| 0 <= i < taken ==> cuts[i] == #[trigger] backward@.reverse()[i],
        decreases count - taken,
    {
        cuts.push(backward[count - 1 - taken]);
        taken += 1;
    }
    proof {
        assert(cuts@ =~= backward@.reverse());
        assert(trace(route@, 0).drop_last() =~= Seq::<usize>::empty());
        assert(trace(route@, len) =~= backward@.reverse());
        lemma_trace_decomposes(route@, len);
    }
    cuts
}

/// The scores of the pass as the tables of the executable code hold them.
spec fn lifted(best: Seq<Option<i128>>) -> Seq<Option<int>> {
    Seq::new(
        best.len(),
        |i: int|
            match best[i] {
                Some(v) => Some(v as int),
                None => None,
            },
    )
}

/// Every recorded score of offset `e` lies within `e` times the largest
/// magnitude of a weight, so it fits the machine integer that holds it.
spec fn bounded(best: Seq<Option<i128>>) -> bool {
    forall|i: int|
        0 <= i < best.len() ==> match #[trigger] best[i] {
            Some(v) => -(i + 1) * 0x8000_0000_0000_0000 <= v <= (i + 1) * 0x8000_0000_0000_0000,
            None => true,
        }
}

proof fn lemma_scan_step(len: nat, spans: Seq<Span>, weights: Seq<Option<i64>>, k: int)
    requires
        0 <= k < spans.len(),
    ensures
        scan(len, spans.take(k + 1), weights) == relax(
            scan(len, spans.take(k), weights),
            spans[k],
            weights,
        ),
{
    assert(spans.take(k + 1).drop_last() =~= spans.take(k));
    assert(spans.take(k + 1).last() == spans[k]);
}

/// The tables keep one entry per non-empty prefix through every span.
pub proof fn lemma_scan_len(len: nat, spans: Seq<Span>, weights: Seq<Option<i64>>)
    ensures
        scan(len, spans, weights).best.len() == len,
        scan(len, spans, weights).route.len() == len,
    decreases spans.len(),
{
    if spans.len() > 0 {
        lemma_scan_len(len, spans.drop_last(), weights);
    }
}

/// Cuts a line of `len` bytes along the best-scoring pieces.
///
/// `spans` are the occurrences of pieces in the line, and `weights[p]` is the
/// weight of piece `p`, `None` for a piece that is never chosen. The spans are
/// taken in the order given. A span is passed over if it is empty, reaches
/// beyond the line, names no weighted piece, or starts at an offset that no
/// sequence of earlier spans reaches. Of two spans that give an offset the
/// same score the earlier one stays. Bytes that no chosen piece covers become
/// tokens of one byte.
pub fn segment(len: usize, spans: &Vec<Span>, weights: &Vec<Option<i64>>) -> (cuts: Vec<usize>)
    ensures
        cuts@ == trace(scan(len as nat, spans@, weights@).route, len),
        is_decomposition(cuts@, len as int),
{
    let mut best: Vec<Option<i128>> = Vec::new();
    let mut route: Vec<usize> = Vec::new();
    let mut filled: usize = 0;
    while filled < len
        invariant
            filled <= len,
            best.len() == filled,
            route.len() == filled,
            forall|i: int| 0 <= i < filled ==> #[trigger] best[i] is None,
            forall|i: int| 0 <= i < filled ==> #[trigger] route[i] == i + 1,
        decreases len - filled,
    {
        best.push(None);
        route.push(filled + 1);
        filled += 1;
    }
    assert(lifted(best@) =~= initial(len as nat).best);
    assert(route@ =~= initial(len as nat).route);
    assert(spans@.take(0) =~= Seq::<Span>::empty());
    let mut k: usize = 0;
    while k < spans.len()
        invariant
            k <= spans.len(),
            best.len() == len,
            route.len() == len,
            lifted(best@) == scan(len as nat, spans@.take(k as int), weights@).best,
            route@ == scan(len as nat, spans@.take(k as int), weights@).route,
            bounded(best@),
        decreases spans.len() - k,
    {
        let span = spans[k];
        let ghost before = scan(len as nat, spans@.take(k as int), weights@);
        proof {
            lemma_scan_step(len as nat, spans@, weights@, k as int);
        }
        if span.start < span.end && span.end <= len && span.pattern < weights.len() {
            let from: Option<i128> = if span.start == 0 {
                Some(0)
            } else {
                best[span.start - 1]
            };
            assert(score_at(before.best, span.start as int) == match from {
                Some(v) => Some(v as int),
                None => None,
            }) by {
                if span.start > 0 {
                    assert(lifted(best@)[span.start - 1] == before.best[span.start - 1]);
                }
            }
            assert(lifted(best@)[span.end - 1] == before.best[span.end - 1]);
            match (from, weights[span.pattern]) {
                (Some(b), Some(w)) => {
                    assert(-(span.start as int) * 0x8000_0000_0000_0000 <= b <= span.start
                        * 0x8000_0000_0000_0000) by {
                        if span.start > 0 {
                            assert(best@[span.start - 1] is Some);
                        }
                    }
                    assert(span.start * 0x8000_0000_0000_0000 + 0x8000_0000_0000_0000
                        <= span.end * 0x8000_0000_0000_0000) by (nonlinear_arith)
                        requires
                            span.start < span.end,
                    ;
                    assert(span.end * 0x8000_0000_0000_0000 <= 0xffff_ffff_ffff_ffff
                        * 0x8000_0000_0000_0000) by (nonlinear_arith)
                        requires
                            span.end <= 0xffff_ffff_ffff_ffff,
                    ;
                    let offered: i128 = b + (w as i128);
                    let better: bool = match best[span.end - 1] {
                        Some(old) => offered > old,
                        None => true,
                    };
                    assert(candidate(before, span, weights@) == Some(offered as int));
                    assert(better == improves(before, span, weights@));
                    if better {
                        best.set(span.end - 1, Some(offered));
                        route.set(span.end - 1, span.start);
                        assert(lifted(best@) =~= relax(before, span, weights@).best);
                    }
                },
                _ => {
                    assert(candidate(before, span, weights@) is None);
                },
            }
        } else {
            assert(candidate(before, span, weights@) is None);
        }
        k += 1;
    }
    assert(spans@.take(spans.len() as int) =~= spans@);
    backtrack(&route, len)
}

/// `span` is an occurrence of one of `pieces` in `text`.
pub open spec fn occurs(pieces: Seq<Seq<u8>>, text: Seq<u8>, span: Span) -> bool {
    &&& span.start <= span.end <= text.len()
    &&& span.pattern < pieces.len()
    &&& text.subrange(span.start as int, span.end as int) == pieces[span.pattern as int]
}

/// `spans` is a full scan of `text` for `pieces`: every span is an occurrence,
/// every non-empty occurrence is among the spans, and the spans come in the
/// order of their end offsets.
pub open spec fn is_full_scan(spans: Seq<Span>, pieces: Seq<Seq<u8>>, text: Seq<u8>) -> bool {
    &&& forall|j: int| 0 <= j < spans.len() ==> occurs(pieces, text, #[trigger] spans[j])
    &&& forall|span: Span|
        span.start < span.end && #[trigger] occurs(pieces, text, span) ==> spans.contains(span)
    &&& forall|i: int, j: int|
        0 <= i <= j < spans.len() ==> (#[trigger] spans[i]).end <= (#[trigger] spans[j]).end
}

/// No two of `pieces` are the same bytes.
pub open spec fn distinct(pieces: Seq<Seq<u8>>) -> bool {
    forall|i: int, j: int| 0 <= i < j < pieces.len() ==> pieces[i] != pieces[j]
}

/// The weight of `token` as a piece: `None` where it is no piece, or a piece
/// that is never chosen.
pub open spec fn token_weight(
    pieces: Seq<Seq<u8>>,
    weights: Seq<Option<i64>>,
    token: Seq<u8>,
) -> Option<int> {
    if exists|p: int| 0 <= p < pieces.len() && p < weights.len() && pieces[p] == token {
        let p = choose|p: int| 0 <= p < pieces.len() && p < weights.len() && pieces[p] == token;
        match weights[p] {
            Some(w) => Some(w as int),
            None => None,
        }
    } else {
        None
    }
}

/// The total weight of the tokens that `cuts` divides `text` into: `None`,
/// which stands below every number, as soon as one token has no weight.
pub open spec fn total(
    pieces: Seq<Seq<u8>>,
    weights: Seq<Option<i64>>,
    text: Seq<u8>,
    cuts: Seq<usize>,
) -> Option<int>
    decreases cuts.len(),
{
    if cuts.len() <= 1 {
        Some(0int)
    } else {
        let n = cuts.len() as int;
        match (
            total(pieces, weights, text, cuts.drop_last()),
            token_weight(pieces, weights, text.subrange(cuts[n - 2] as int, cuts[n - 1] as int)),
        ) {
            (Some(a), Some(b)) => Some(a + b),
            _ => None,
        }
    }
}

/// `a` is no less than `b`, where `None` stands below every number.
pub open spec fn at_least(a: Option<int>, b: Option<int>) -> bool {
    match b {
        Some(y) => a matches Some(x) && x >= y,
        None => true,
    }
}

/// The end offset of the last span among the first `m`.
spec fn frontier(spans: Seq<Span>, m: int) -> int {
    if m <= 0 {
        0
    } else {
        spans[m - 1].end as int
    }
}

/// Entry `i` of the tables rests on an occurrence of piece `p` that ends at
/// offset `i + 1` and on the score of the offset where it starts.
spec fn linked(
    t: Table,
    pieces: Seq<Seq<u8>>,
    weights: Seq<Option<i64>>,
    text: Seq<u8>,
    i: int,
    p: int,
) -> bool {
    &&& t.route[i] <= i
    &&& 0 <= p < pieces.len()
    &&& text.subrange(t.route[i] as int, i + 1) == pieces[p]
    &&& weights[p] is Some
    &&& t.best[i] is Some
    &&& score_at(t.best, t.route[i] as int) == Some(t.best[i].unwrap() - weights[p].unwrap())
}

/// What holds of the tables once the spans up to offset `upto` are in.
#[verifier::opaque]
spec fn settled(
    t: Table,
    pieces: Seq<Seq<u8>>,
    weights: Seq<Option<i64>>,
    text: Seq<u8>,
    upto: int,
) -> bool {
    &&& t.best.len() == text.len()
    &&& t.route.len() == text.len()
    &&& forall|i: int| 0 <= i < text.len() && i + 1 > upto ==> #[trigger] t.best[i] is None
    &&& forall|i: int|
        0 <= i < text.len() && #[trigger] t.best[i] is None ==> t.route[i] == i + 1
    &&& forall|i: int|
        0 <= i < text.len() && #[trigger] t.best[i] is Some ==> exists|p: int|
            linked(t, pieces, weights, text, i, p)
}

/// One more span, which is an occurrence and ends no earlier than those
/// before it, leaves the tables settled.
proof fn lemma_relax_settled(
    t: Table,
    pieces: Seq<Seq<u8>>,
    weights: Seq<Option<i64>>,
    text: Seq<u8>,
    span: Span,
    upto: int,
)
    requires
        pieces.len() == weights.len(),
        text.len() <= usize::MAX,
        settled(t, pieces, weights, text, upto),
        occurs(pieces, text, span),
        upto <= span.end,
    ensures
        settled(relax(t, span, weights), pieces, weights, text, span.end as int),
{
    reveal(settled);
    let len = text.len();
    let next = relax(t, span, weights);
    if improves(t, span, weights) {
        let at = span.end - 1;
        assert forall|i: int| 0 <= i < len && #[trigger] next.best[i] is Some implies exists|
            p: int,
        | linked(next, pieces, weights, text, i, p) by {
            if i == at {
                assert(score_at(next.best, span.start as int) == score_at(
                    t.best,
                    span.start as int,
                ));
                assert(linked(next, pieces, weights, text, i, span.pattern as int));
            } else {
                assert(t.best[i] is Some);
                let p = choose|p: int| linked(t, pieces, weights, text, i, p);
                assert(t.route[i] != span.end) by {
                    if t.route[i] == span.end {
                        assert(i + 1 > upto);
                    }
                }
                assert(score_at(next.best, t.route[i] as int) == score_at(
                    t.best,
                    t.route[i] as int,
                ));
                assert(linked(next, pieces, weights, text, i, p));
            }
        }
        assert forall|i: int| 0 <= i < len && i + 1 > span.end implies #[trigger] next.best[i]
            is None by {
            assert(t.best[i] is None);
        }
        assert forall|i: int| 0 <= i < len && #[trigger] next.best[i] is None implies next.route[i]
            == i + 1 by {
            assert(t.best[i] is None);
        }
    } else {
        assert forall|i: int| 0 <= i < len && i + 1 > span.end implies #[trigger] next.best[i]
            is None by {
            assert(t.best[i] is None);
        }
    }
}

proof fn lemma_scan_settled(
    pieces: Seq<Seq<u8>>,
    weights: Seq<Option<i64>>,
    text: Seq<u8>,
    spans: Seq<Span>,
    m: int,
)
    requires
        pieces.len() == weights.len(),
        text.len() <= usize::MAX,
        is_full_scan(spans, pieces, text),
        0 <= m <= spans.len(),
    ensures
        settled(
            scan(text.len(), spans.take(m), weights),
            pieces,
            weights,
            text,
            frontier(spans, m),
        ),
    decreases m,
{
    if m == 0 {
        reveal(settled);
        assert(spans.take(0) =~= Seq::<Span>::empty());
    } else {
        lemma_scan_settled(pieces, weights, text, spans, m - 1);
        lemma_scan_step(text.len(), spans, weights, m - 1);
        assert(frontier(spans, m - 1) <= spans[m - 1].end) by {
            if m - 1 > 0 {
                assert(spans[m - 2].end <= spans[m - 1].end);
            }
        }
        lemma_relax_settled(
            scan(text.len(), spans.take(m - 1), weights),
            pieces,
            weights,
            text,
            spans[m - 1],
            frontier(spans, m - 1),
        );
    }
}

proof fn lemma_best_grows(
    len: nat,
    spans: Seq<Span>,
    weights: Seq<Option<i64>>,
    m: int,
    n: int,
    i: int,
)
    requires
        0 <= m <= n <= spans.len(),
        0 <= i < len,
    ensures
        at_least(
            scan(len, spans.take(n), weights).best[i],
            scan(len, spans.take(m), weights).best[i],
        ),
    decreases n - m,
{
    if m < n {
        lemma_best_grows(len, spans, weights, m, n - 1, i);
        lemma_scan_step(len, spans, weights, n - 1);
        lemma_scan_len(len, spans.take(n - 1), weights);
    }
}

proof fn lemma_best_kept(
    len: nat,
    spans: Seq<Span>,
    weights: Seq<Option<i64>>,
    m: int,
    n: int,
    i: int,
)
    requires
        0 <= m <= n <= spans.len(),
        0 <= i < len,
        forall|j: int| m <= j < n ==> (#[trigger] spans[j]).end != i + 1,
    ensures
        scan(len, spans.take(n), weights).best[i] == scan(len, spans.take(m), weights).best[i],
    decreases n - m,
{
    if m < n {
        lemma_best_kept(len, spans, weights, m, n - 1, i);
        lemma_scan_step(len, spans, weights, n - 1);
        lemma_scan_len(len, spans.take(n - 1), weights);
        assert(spans[n - 1].end != i + 1);
    }
}

/// Where the pieces are distinct, a token that is piece `p` has the weight of
/// piece `p`.
proof fn lemma_token_weight(
    pieces: Seq<Seq<u8>>,
    weights: Seq<Option<i64>>,
    token: Seq<u8>,
    p: int,
)
    requires
        pieces.len() == weights.len(),
        distinct(pieces),
        0 <= p < pieces.len(),
        pieces[p] == token,
    ensures
        token_weight(pieces, weights, token) == match weights[p] {
            Some(w) => Some(w as int),
            None => None,
        },
{
    let q = choose|q: int| 0 <= q < pieces.len() && q < weights.len() && pieces[q] == token;
    if q < p {
        assert(pieces[q] != pieces[p]);
    }
    if p < q {
        assert(pieces[p] != pieces[q]);
    }
}

/// The score that the finished tables hold for an offset is no less than the
/// total weight of any decomposition of the bytes before it into pieces.
proof fn lemma_scan_dominates(
    pieces: Seq<Seq<u8>>,
    weights: Seq<Option<i64>>,
    text: Seq<u8>,
    spans: Seq<Span>,
    cuts: Seq<usize>,
)
    requires
        pieces.len() == weights.len(),
        pieces.len() <= usize::MAX,
        distinct(pieces),
        is_full_scan(spans, pieces, text),
        cuts.len() >= 1,
        is_decomposition(cuts, cuts.last() as int),
        cuts.last() <= text.len(),
    ensures
        at_least(
            score_at(scan(text.len(), spans, weights).best, cuts.last() as int),
            total(pieces, weights, text, cuts),
        ),
    decreases cuts.len(),
{
    let len = text.len();
    let last = scan(len, spans, weights);
    lemma_scan_len(len, spans, weights);
    assert(spans.take(spans.len() as int) =~= spans);
    if cuts.len() > 1 && total(pieces, weights, text, cuts) is Some {
        let n = cuts.len() as int;
        let shorter = cuts.drop_last();
        let s = cuts[n - 2];
        let e = cuts[n - 1];
        assert(cuts[n - 2] < cuts[n - 2 + 1]);
        assert forall|i: int| 0 <= i < shorter.len() - 1 implies #[trigger] shorter[i] < shorter[i
            + 1] by {
            assert(cuts[i] < cuts[i + 1]);
        }
        lemma_scan_dominates(pieces, weights, text, spans, shorter);
        let token = text.subrange(s as int, e as int);
        let p = choose|p: int| 0 <= p < pieces.len() && p < weights.len() && pieces[p] == token;
        let span = Span { start: s, end: e, pattern: p as usize };
        assert(occurs(pieces, text, span));
        assert(spans.contains(span));
        let j = choose|j: int| 0 <= j < spans.len() && spans[j] == span;
        let before = scan(len, spans.take(j), weights);
        let after = scan(len, spans.take(j + 1), weights);
        lemma_scan_step(len, spans, weights, j);
        lemma_scan_len(len, spans.take(j), weights);
        if s > 0 {
            assert forall|k: int| j <= k < spans.len() implies (#[trigger] spans[k]).end != s by {
                assert(spans[j].end <= spans[k].end);
            }
            lemma_best_kept(len, spans, weights, j, spans.len() as int, s - 1);
        }
        assert(score_at(before.best, s as int) == score_at(last.best, s as int));
        assert(candidate(before, span, weights) is Some);
        assert(at_least(after.best[e - 1], candidate(before, span, weights)));
        lemma_best_grows(len, spans, weights, j + 1, spans.len() as int, e - 1);
    }
}

/// An entry of the finished tables that holds a score rests on an occurrence
/// of a piece.
proof fn lemma_entry_linked(
    pieces: Seq<Seq<u8>>,
    weights: Seq<Option<i64>>,
    text: Seq<u8>,
    spans: Seq<Span>,
    i: int,
)
    requires
        pieces.len() == weights.len(),
        text.len() <= usize::MAX,
        is_full_scan(spans, pieces, text),
        0 <= i < text.len(),
        score_at(scan(text.len(), spans, weights).best, i + 1) is Some,
    ensures
        exists|p: int| linked(scan(text.len(), spans, weights), pieces, weights, text, i, p),
{
    reveal(settled);
    assert(spans.take(spans.len() as int) =~= spans);
    lemma_scan_settled(pieces, weights, text, spans, spans.len() as int);
    lemma_scan_len(text.len(), spans, weights);
    assert(scan(text.len(), spans, weights).best[i] is Some);
}

/// Where the finished tables hold a score for an offset, the cuts read off the
/// route table up to that offset are a decomposition into pieces of exactly
/// that total weight.
proof fn lemma_scan_achieves(
    pieces: Seq<Seq<u8>>,
    weights: Seq<Option<i64>>,
    text: Seq<u8>,
    route: Seq<usize>,
    best: Seq<Option<int>>,
    spans: Seq<Span>,
    end: usize,
)
    requires
        pieces.len() == weights.len(),
        distinct(pieces),
        is_full_scan(spans, pieces, text),
        end <= text.len() <= usize::MAX,
        route == scan(text.len(), spans, weights).route,
        best == scan(text.len(), spans, weights).best,
        score_at(best, end as int) is Some,
    ensures
        total(pieces, weights, text, trace(route, end)) == score_at(best, end as int),
    decreases end,
{
    if end > 0 {
        let last = scan(text.len(), spans, weights);
        lemma_scan_len(text.len(), spans, weights);
        let i = end - 1;
        lemma_entry_linked(pieces, weights, text, spans, i);
        let p = choose|p: int| linked(last, pieces, weights, text, i, p);
        let start = route[i];
        assert(start < end);
        assert(step_back(route, end) == start);
        assert(score_at(best, start as int) is Some);
        lemma_scan_achieves(pieces, weights, text, route, best, spans, start);
        let before = trace(route, start);
        let cuts = trace(route, end);
        assert(cuts == before.push(end));
        lemma_trace_decomposes(route, start);
        assert(cuts.drop_last() =~= before);
        let n = cuts.len() as int;
        assert(cuts[n - 2] == start);
        assert(cuts[n - 1] == end);
        let token = text.subrange(start as int, end as int);
        lemma_token_weight(pieces, weights, token, p);
        assert(token_weight(pieces, weights, token) == Some(weights[p].unwrap() as int));
        assert(total(pieces, weights, text, before) == score_at(best, start as int));
        assert(total(pieces, weights, text, cuts) == Some(
            score_at(best, start as int).unwrap() + weights[p].unwrap(),
        ));
    }
}

/// The cuts that the pass gives are the best there are. Of all the ways to
/// divide `text` into non-empty tokens, none has a higher total weight, where a
/// token that is no weighted piece puts a division below every division into
/// weighted pieces.
pub proof fn lemma_segment_optimal(
    pieces: Seq<Seq<u8>>,
    weights: Seq<Option<i64>>,
    text: Seq<u8>,
    spans: Seq<Span>,
    other: Seq<usize>,
)
    requires
        pieces.len() == weights.len(),
        pieces.len() <= usize::MAX,
        distinct(pieces),
        is_full_scan(spans, pieces, text),
        is_decomposition(other, text.len() as int),
    ensures
        at_least(
            total(
                pieces,
                weights,
                text,
                trace(scan(text.len(), spans, weights).route, text.len() as usize),
            ),
            total(pieces, weights, text, other),
        ),
{
    if total(pieces, weights, text, other) is Some {
        lemma_scan_dominates(pieces, weights, text, spans, other);
        let last = scan(text.len(), spans, weights);
        lemma_scan_achieves(
            pieces,
            weights,
            text,
            last.route,
            last.best,
            spans,
            text.len() as usize,
        );
    }
}

/// Cuts that ascend step by step ascend over any distance.
pub proof fn lemma_cuts_ascend(cuts: Seq<usize>, i: int, j: int)
    requires
        0 <= i <= j < cuts.len(),
        forall|k: int| 0 <= k < cuts.len() - 1 ==> #[trigger] cuts[k] < cuts[k + 1],
    ensures
        cuts[i] <= cuts[j],
    decreases j - i,
{
    if i < j {
        lemma_cuts_ascend(cuts, i, j - 1);
        assert(cuts[j - 1] < cuts[j - 1 + 1]);
    }
}

/// Whether `token` is one of `pieces` or a single byte.
pub open spec fn is_plain(pieces: Seq<Seq<u8>>, token: Seq<u8>) -> bool {
    token.len() == 1 || exists|p: int| 0 <= p < pieces.len() && pieces[p] == token
}

/// An entry of the finished tables whose route lies before its offset rests on
/// an occurrence of a piece.
proof fn lemma_route_linked(
    pieces: Seq<Seq<u8>>,
    weights: Seq<Option<i64>>,
    text: Seq<u8>,
    spans: Seq<Span>,
    i: int,
)
    requires
        pieces.len() == weights.len(),
        text.len() <= usize::MAX,
        is_full_scan(spans, pieces, text),
        0 <= i < text.len(),
        scan(text.len(), spans, weights).route[i] <= i,
    ensures
        exists|p: int| linked(scan(text.len(), spans, weights), pieces, weights, text, i, p),
{
    reveal(settled);
    assert(spans.take(spans.len() as int) =~= spans);
    lemma_scan_settled(pieces, weights, text, spans, spans.len() as int);
    lemma_scan_len(text.len(), spans, weights);
    let last = scan(text.len(), spans, weights);
    if last.best[i] is None {
        assert(last.route[i] == i + 1);
    }
}

/// Every token that the pass cuts is a piece or a single byte.
pub proof fn lemma_segment_plain(
    pieces: Seq<Seq<u8>>,
    weights: Seq<Option<i64>>,
    text: Seq<u8>,
    spans: Seq<Span>,
    end: usize,
)
    requires
        pieces.len() == weights.len(),
        is_full_scan(spans, pieces, text),
        end <= text.len() <= usize::MAX,
    ensures
        forall|i: int|
            0 <= i < trace(scan(text.len(), spans, weights).route, end).len() - 1 ==> is_plain(
                pieces,
                #[trigger] tokens_at(text, trace(scan(text.len(), spans, weights).route, end))[i],
            ),
    decreases end,
{
    let route = scan(text.len(), spans, weights).route;
    lemma_scan_len(text.len(), spans, weights);
    if end > 0 {
        let start = step_back(route, end);
        lemma_segment_plain(pieces, weights, text, spans, start);
        lemma_trace_decomposes(route, start);
        let before = trace(route, start);
        let cuts = trace(route, end);
        assert(cuts == before.push(end));
        assert forall|i: int| 0 <= i < cuts.len() - 1 implies is_plain(
            pieces,
            #[trigger] tokens_at(text, cuts)[i],
        ) by {
            if i < before.len() - 1 {
                assert(tokens_at(text, cuts)[i] == tokens_at(text, before)[i]);
            } else {
                let token = text.subrange(start as int, end as int);
                assert(tokens_at(text, cuts)[i] == token);
                if route[end - 1] < end {
                    let at: int = end - 1;
                    let last = scan(text.len(), spans, weights);
                    lemma_route_linked(pieces, weights, text, spans, at);
                    let p = choose|p: int| linked(last, pieces, weights, text, at, p);
                    assert(pieces[p] == token);
                } else {
                    assert(token.len() == 1);
                }
            }
        }
    }
}

} // verus!
