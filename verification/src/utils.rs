//! The line normalizer: it divides a text into segments that end with their
//! line breaks, so that no token crosses from one line into the next.

use crate::segment::is_decomposition;
use crate::segment::tokens_at;
use vstd::prelude::*;

verus! {

/// The byte that ends a line.
pub const NEWLINE: u8 = 0x0a;

/// The most line breaks that end one segment where segments are bounded.
pub const MAX_BREAKS: usize = 100;

/// How many bytes from offset `from` on are no line break, up to `limit`.
pub open spec fn run_length(text: Seq<u8>, from: int, limit: int) -> int
    decreases text.len() - from,
{
    if 0 <= from < text.len() && limit > 0 && text[from] != NEWLINE {
        1 + run_length(text, from + 1, limit - 1)
    } else {
        0
    }
}

/// How many bytes from offset `from` on are line breaks, up to `limit`.
pub open spec fn break_length(text: Seq<u8>, from: int, limit: int) -> int
    decreases text.len() - from,
{
    if 0 <= from < text.len() && limit > 0 && text[from] == NEWLINE {
        1 + break_length(text, from + 1, limit - 1)
    } else {
        0
    }
}

/// The most bytes of a segment before its line breaks: `max_len`, and no
/// bound where `max_len` is zero.
pub open spec fn run_limit(max_len: usize) -> int {
    if max_len == 0 {
        usize::MAX as int
    } else {
        max_len as int
    }
}

/// The most line breaks at the end of a segment.
pub open spec fn break_limit(max_len: usize) -> int {
    if max_len == 0 {
        usize::MAX as int
    } else {
        MAX_BREAKS as int
    }
}

/// The length of the segment that starts at offset `from`: the bytes up to the
/// next line break, as far as the bound allows, and the line breaks that
/// follow them directly.
pub open spec fn segment_length(text: Seq<u8>, from: int, max_len: usize) -> int {
    let run = run_length(text, from, run_limit(max_len));
    run + break_length(text, from + run, break_limit(max_len))
}

/// The offsets at which the segments of `text` from offset `from` on start,
/// and the length of the text at the end.
pub open spec fn cuts_from(text: Seq<u8>, from: int, max_len: usize) -> Seq<usize>
    decreases text.len() - from,
{
    if 0 <= from < text.len() && 0 < segment_length(text, from, max_len) <= text.len() - from {
        seq![#[verifier::truncate] (from as usize)] + cuts_from(
            text,
            from + segment_length(text, from, max_len),
            max_len,
        )
    } else {
        seq![#[verifier::truncate] (text.len() as usize)]
    }
}

/// The offsets that divide `text` into segments.
pub open spec fn line_cuts(text: Seq<u8>, max_len: usize) -> Seq<usize> {
    cuts_from(text, 0, max_len)
}

/// The segments of `text`.
pub open spec fn lines_of(text: Seq<u8>, max_len: usize) -> Seq<Seq<u8>> {
    tokens_at(text, line_cuts(text, max_len))
}

/// Whether every line break of `segment` is followed by line breaks only: the
/// segment holds one line at most.
pub open spec fn is_line(segment: Seq<u8>) -> bool {
    forall|i: int, j: int|
        0 <= i <= j < segment.len() && segment[i] == NEWLINE ==> segment[j] == NEWLINE
}

pub proof fn lemma_run_length(text: Seq<u8>, from: int, limit: int)
    requires
        0 <= from <= text.len(),
    ensures
        0 <= run_length(text, from, limit) <= text.len() - from,
        run_length(text, from, limit) <= limit || limit < 0,
        forall|i: int|
            from <= i < from + run_length(text, from, limit) ==> #[trigger] text[i] != NEWLINE,
        limit > 0 && from < text.len() && text[from] != NEWLINE ==> run_length(text, from, limit)
            > 0,
    decreases text.len() - from,
{
    if from < text.len() && limit > 0 && text[from] != NEWLINE {
        lemma_run_length(text, from + 1, limit - 1);
    }
}

pub proof fn lemma_break_length(text: Seq<u8>, from: int, limit: int)
    requires
        0 <= from <= text.len(),
    ensures
        0 <= break_length(text, from, limit) <= text.len() - from,
        break_length(text, from, limit) <= limit || limit < 0,
        forall|i: int|
            from <= i < from + break_length(text, from, limit) ==> #[trigger] text[i] == NEWLINE,
        limit > 0 && from < text.len() && text[from] == NEWLINE ==> break_length(text, from, limit)
            > 0,
    decreases text.len() - from,
{
    if from < text.len() && limit > 0 && text[from] == NEWLINE {
        lemma_break_length(text, from + 1, limit - 1);
    }
}

/// A segment that starts inside the text is not empty, ends inside the text
/// and holds one line at most.
pub proof fn lemma_segment_length(text: Seq<u8>, from: int, max_len: usize)
    requires
        0 <= from < text.len(),
    ensures
        0 < segment_length(text, from, max_len) <= text.len() - from,
        is_line(text.subrange(from, from + segment_length(text, from, max_len))),
{
    let run = run_length(text, from, run_limit(max_len));
    lemma_run_length(text, from, run_limit(max_len));
    lemma_break_length(text, from + run, break_limit(max_len));
}

/// The cuts from offset `from` on ascend strictly from `from` to the end of the
/// text.
pub proof fn lemma_cuts_from(text: Seq<u8>, from: int, max_len: usize)
    requires
        0 <= from <= text.len() <= usize::MAX,
    ensures
        cuts_from(text, from, max_len).len() >= 1,
        cuts_from(text, from, max_len)[0] == from,
        cuts_from(text, from, max_len).last() == text.len(),
        forall|i: int|
            0 <= i < cuts_from(text, from, max_len).len() - 1 ==> #[trigger] cuts_from(
                text,
                from,
                max_len,
            )[i] < cuts_from(text, from, max_len)[i + 1],
        forall|i: int|
            0 <= i < cuts_from(text, from, max_len).len() - 1 ==> cuts_from(text, from, max_len)[i
                + 1] == #[trigger] cuts_from(text, from, max_len)[i] + segment_length(
                text,
                cuts_from(text, from, max_len)[i] as int,
                max_len,
            ),
    decreases text.len() - from,
{
    if from < text.len() {
        lemma_segment_length(text, from, max_len);
        let next = from + segment_length(text, from, max_len);
        lemma_cuts_from(text, next, max_len);
        let rest = cuts_from(text, next, max_len);
        let cuts = cuts_from(text, from, max_len);
        assert(cuts =~= seq![from as usize] + rest);
        assert forall|i: int| 0 <= i < cuts.len() - 1 implies #[trigger] cuts[i] < cuts[i + 1]
            && cuts[i + 1] == cuts[i] + segment_length(text, cuts[i] as int, max_len) by {
            if i > 0 {
                assert(cuts[i] == rest[i - 1]);
                assert(cuts[i + 1] == rest[i - 1 + 1]);
            }
        }
    }
}

/// The segments of a text divide it: joined in order they are the text, and
/// each holds one line at most.
pub proof fn lemma_lines_divide(text: Seq<u8>, max_len: usize)
    requires
        text.len() <= usize::MAX,
    ensures
        is_decomposition(line_cuts(text, max_len), text.len() as int),
        crate::segment::concat(lines_of(text, max_len)) == text,
        forall|i: int| 0 <= i < lines_of(text, max_len).len() ==> is_line(#[trigger] lines_of(text, max_len)[i]),
{
    lemma_cuts_from(text, 0, max_len);
    let cuts = line_cuts(text, max_len);
    crate::segment::lemma_tokens_cover(text, cuts);
    assert(text.subrange(0, text.len() as int) =~= text);
    assert forall|i: int| 0 <= i < lines_of(text, max_len).len() implies is_line(
        #[trigger] lines_of(text, max_len)[i],
    ) by {
        assert(cuts[i] < cuts[i + 1]);
        lemma_segment_length(text, cuts[i] as int, max_len);
    }
}

/// Divides `text` into segments, each a view into `text`.
///
/// A segment is a run of bytes up to the next line break, together with the
/// line breaks that follow it directly. With `max_len` zero nothing bounds a
/// segment. Otherwise a segment holds `max_len` bytes at most before its line
/// breaks and a hundred line breaks at most: a longer run is divided after every
/// `max_len` bytes, a longer row of line breaks after every hundred.
pub fn normalize<'a>(text: &'a [u8], max_len: usize) -> (lines: Vec<&'a [u8]>)
    ensures
        lines.len() == lines_of(text@, max_len).len(),
        forall|i: int| 0 <= i < lines.len() ==> (#[trigger] lines[i])@ == lines_of(text@, max_len)[i],
{
    let len: usize = text.len();
    let run_max: usize = if max_len == 0 {
        usize::MAX
    } else {
        max_len
    };
    let break_max: usize = if max_len == 0 {
        usize::MAX
    } else {
        MAX_BREAKS
    };
    let mut lines: Vec<&'a [u8]> = Vec::new();
    let ghost mut starts: Seq<usize> = Seq::empty();
    let mut from: usize = 0;
    while from < len
        invariant
            len == text@.len(),
            from <= len,
            run_max == run_limit(max_len),
            break_max == break_limit(max_len),
            line_cuts(text@, max_len) == starts + cuts_from(text@, from as int, max_len),
            lines.len() == starts.len(),
            forall|i: int|
                0 <= i < lines.len() ==> (#[trigger] lines[i])@ == text@.subrange(
                    starts[i] as int,
                    (starts + cuts_from(text@, from as int, max_len))[i + 1] as int,
                ),
        decreases len - from,
    {
        let mut end: usize = from;
        while end < len && end - from < run_max && text[end] != NEWLINE
            invariant
                from <= end <= len,
                len == text@.len(),
                run_length(text@, from as int, run_max as int) == (end - from) + run_length(
                    text@,
                    end as int,
                    run_max - (end - from),
                ),
            decreases len - end,
        {
            end += 1;
        }
        let middle: usize = end;
        while end < len && end - middle < break_max && text[end] == NEWLINE
            invariant
                middle <= end <= len,
                len == text@.len(),
                break_length(text@, middle as int, break_max as int) == (end - middle)
                    + break_length(text@, end as int, break_max - (end - middle)),
            decreases len - end,
        {
            end += 1;
        }
        proof {
            lemma_segment_length(text@, from as int, max_len);
            assert(end == from + segment_length(text@, from as int, max_len));
            lemma_cuts_from(text@, end as int, max_len);
            let rest = cuts_from(text@, end as int, max_len);
            let older = starts + cuts_from(text@, from as int, max_len);
            let newer = starts.push(from) + rest;
            assert(older =~= newer);
            assert(newer[starts.len() as int + 1] == end);
        }
        lines.push(&text[from..end]);
        proof {
            starts = starts.push(from);
        }
        from = end;
    }
    proof {
        let cuts = line_cuts(text@, max_len);
        assert(cuts =~= starts.push(len));
        assert forall|i: int| 0 <= i < lines.len() implies (#[trigger] lines[i])@ == lines_of(
            text@,
            max_len,
        )[i] by {
            assert(cuts[i] == starts[i]);
        }
    }
    lines
}

} // verus!
