//! Fuzzy scores, as the `fuzzy-matcher` crate computes them.

use fuzzy_matcher::skim::SkimMatcherV2;
use fuzzy_matcher::FuzzyMatcher;
use vstd::prelude::*;

verus! {

/// The longest query, in characters, that is handed to the scorer.
///
/// The scorer adds up at most 32 points for each character of the pattern,
/// in 32-bit arithmetic. Within this length the sum stays far inside that
/// range.
pub const MAX_QUERY_CHARS: usize = 1_048_576;

/// Whether a query is short enough to be scored.
pub open spec fn scorable(query: Seq<char>) -> bool {
    query.len() <= MAX_QUERY_CHARS
}

/// The score that `SkimMatcherV2`, in its default configuration, gives to
/// `choice` for `pattern`; `None` where the pattern does not match.
pub uninterp spec fn skim_score(choice: Seq<char>, pattern: Seq<char>) -> Option<i64>;

/// Calls `FuzzyMatcher::fuzzy_match` on a fresh `SkimMatcherV2::default()`.
///
/// Not proved: that the call returns, and that its result depends on the two
/// texts alone. The matcher is made anew for each call, so nothing that an
/// earlier call left behind can reach the result.
#[verifier::external_body]
pub(crate) fn skim_match(choice: &str, pattern: &str) -> (score: Option<i64>)
    requires
        scorable(pattern@),
    ensures
        score == skim_score(choice@, pattern@),
{
    SkimMatcherV2::default().fuzzy_match(choice, pattern)
}

/// Tells whether `query` is short enough to be scored.
pub fn fits_scorer(query: &str) -> (fits: bool)
    ensures
        fits == scorable(query@),
{
    query.unicode_len() <= MAX_QUERY_CHARS
}

} // verus!
