//! The pattern matcher: one multi-pattern searcher over all pieces of a
//! vocabulary, built once and then only read.
//!
//! The searcher is an `aho_corasick::AhoCorasick`. Nothing here is proved of
//! it: this module states what the rest of the library takes from it.

use crate::segment::is_full_scan;
use crate::segment::Span;
use aho_corasick::AhoCorasick;
use aho_corasick::BuildError;
use aho_corasick::MatchKind;
use vstd::prelude::*;

verus! {

/// The searcher, a value that the library carries and never looks into.
#[verifier::external_type_specification]
#[verifier::external_body]
pub struct ExAhoCorasick(AhoCorasick);

/// What the builder says when it cannot build a searcher.
#[verifier::external_type_specification]
#[verifier::external_body]
pub struct ExBuildError(BuildError);

/// The patterns that a searcher was built from, in the order in which they
/// were given: a pattern's place in it is the number under which the searcher
/// reports it.
pub uninterp spec fn searcher_patterns(searcher: AhoCorasick) -> Seq<Seq<u8>>;

/// Whether a searcher was built the way `build_searcher` builds one: with the
/// builder's defaults and the standard match kind, the only one under which a
/// searcher reports overlapping matches.
pub uninterp spec fn searcher_is_standard(searcher: AhoCorasick) -> bool;

/// Whether a searcher for `patterns` can be built: the build fails where the
/// patterns are too many, one is too long, or their states are too many to
/// number.
pub uninterp spec fn searcher_builds(patterns: Seq<Seq<u8>>) -> bool;

/// The matches that an overlapping search for `patterns` reports in
/// `haystack`, in the order in which it reports them.
pub uninterp spec fn overlapping_matches(patterns: Seq<Seq<u8>>, haystack: Seq<u8>) -> Seq<Span>;

/// The byte strings that `pieces` hold.
pub open spec fn bytes_of(pieces: Seq<Vec<u8>>) -> Seq<Seq<u8>> {
    Seq::new(pieces.len(), |i: int| pieces[i]@)
}

/// Builds a searcher for `patterns` with `AhoCorasickBuilder::build`, under the
/// standard match kind.
///
/// Claimed of it: whether the build succeeds depends on the patterns alone;
/// and a searcher that was built holds the patterns as given, in their order.
#[verifier::external_body]
pub(crate) fn build_searcher(patterns: &Vec<Vec<u8>>) -> (built: Result<AhoCorasick, BuildError>)
    ensures
        built is Ok == searcher_builds(bytes_of(patterns@)),
        built matches Ok(searcher) ==> searcher_patterns(searcher) == bytes_of(patterns@)
            && searcher_is_standard(searcher),
{
    AhoCorasick::builder().match_kind(MatchKind::Standard).build(patterns)
}

/// Collects what `AhoCorasick::find_overlapping_iter` reports in `haystack`.
///
/// Claimed of it: the matches depend on the patterns and the haystack alone;
/// each is an occurrence of the pattern it names; every place where a
/// non-empty pattern occurs is reported, also where occurrences overlap; and
/// the matches come in the order of their end offsets, since the search
/// reports what ends at a byte before it reads the next.
#[verifier::external_body]
pub(crate) fn overlapping(searcher: &AhoCorasick, haystack: &[u8]) -> (spans: Vec<Span>)
    requires
        searcher_is_standard(*searcher),
    ensures
        spans@ == overlapping_matches(searcher_patterns(*searcher), haystack@),
        is_full_scan(spans@, searcher_patterns(*searcher), haystack@),
{
    searcher
        .find_overlapping_iter(haystack)
        .map(|m| Span { start: m.start(), end: m.end(), pattern: m.pattern().as_usize() })
        .collect()
}

} // verus!
