//! The filtering primitives that come from outside the library: fuzzy
//! matching (the `fuzzy-matcher` crate) and Unicode lowercasing (std).
use vstd::prelude::*;
use fuzzy_matcher::FuzzyMatcher;
use fuzzy_matcher::skim::SkimMatcherV2;

verus! {

/// ASCII lowercase of one character; other characters are unchanged.
pub open spec fn ascii_lower(c: char) -> char {
    if 'A' <= c && c <= 'Z' {
        ((c as u32) + 32) as char
    } else {
        c
    }
}

/// Whether a choice character matches a pattern character, exactly or
/// ignoring ASCII case.
pub open spec fn chars_match(c: char, p: char, case_sensitive: bool) -> bool {
    if case_sensitive {
        c == p
    } else {
        ascii_lower(c) == ascii_lower(p)
    }
}

/// Whether the pattern holds an ASCII uppercase letter (smart case: only
/// then does matching respect case).
pub open spec fn has_ascii_upper(p: Seq<char>) -> bool {
    exists|i: int| 0 <= i < p.len() && 'A' <= #[trigger] p[i] && p[i] <= 'Z'
}

/// Whether the pattern's characters occur in the choice in order, taking
/// each at its first possible place.
pub open spec fn is_fuzzy_subsequence(choice: Seq<char>, pattern: Seq<char>, case_sensitive: bool) -> bool
    decreases choice.len(),
{
    if pattern.len() == 0 {
        true
    } else if choice.len() == 0 {
        false
    } else if chars_match(choice[0], pattern[0], case_sensitive) {
        is_fuzzy_subsequence(choice.drop_first(), pattern.drop_first(), case_sensitive)
    } else {
        is_fuzzy_subsequence(choice.drop_first(), pattern, case_sensitive)
    }
}

/// Whether the skim matcher (default settings: smart case) finds the
/// pattern in the choice.
pub open spec fn fuzzy_found(choice: Seq<char>, pattern: Seq<char>) -> bool {
    is_fuzzy_subsequence(choice, pattern, has_ascii_upper(pattern))
}

/// The score of `SkimMatcherV2::default().fuzzy_match(choice, pattern)`.
///
/// The contract claims what the crate's source shows: with default
/// settings the matcher answers `Some` exactly when the pattern is empty or
/// its characters occur in order in the choice (case-insensitively for
/// ASCII unless the pattern holds an ASCII uppercase letter). The score is
/// not stated.
#[verifier::external_body]
pub(crate) fn fuzzy_score(choice: &str, pattern: &str) -> (r: Option<i64>)
    ensures
        r.is_some() == fuzzy_found(choice@, pattern@),
{
    SkimMatcherV2::default().fuzzy_match(choice, pattern)
}

/// The Unicode lowercase of a text, as `str::to_lowercase` gives it.
pub uninterp spec fn lowercase(s: Seq<char>) -> Seq<char>;

/// Lowercases a text with `str::to_lowercase`.
///
/// The contract claims only that the result depends on the text alone.
#[verifier::external_body]
pub(crate) fn to_lowercase(s: &str) -> (r: String)
    ensures
        r@ == lowercase(s@),
{
    s.to_lowercase()
}

} // verus!
