use fuzzy_matcher::skim::SkimMatcherV2;
use fuzzy_matcher::FuzzyMatcher;
use vstd::prelude::*;

verus! {

/// `c` is an ASCII upper-case letter.
pub open spec fn is_ascii_upper(c: char) -> bool {
    'A' as u32 <= c as u32 && c as u32 <= 'Z' as u32
}

/// ASCII lower-casing of one character; other characters are kept.
pub open spec fn ascii_lower(c: char) -> int {
    if is_ascii_upper(c) {
        c as int + 32
    } else {
        c as int
    }
}

/// The pattern holds an ASCII upper-case letter: smart case then matches
/// case-sensitively.
pub open spec fn has_ascii_upper(pattern: Seq<char>) -> bool {
    exists|i: int| 0 <= i < pattern.len() && is_ascii_upper(#[trigger] pattern[i])
}

/// Two characters are equal, ignoring ASCII case unless `case_sensitive`.
pub open spec fn chars_match(a: char, b: char, case_sensitive: bool) -> bool {
    if case_sensitive {
        a == b
    } else {
        ascii_lower(a) == ascii_lower(b)
    }
}

/// `pattern` occurs in `choice` as a subsequence, characters compared by
/// `chars_match`.
pub open spec fn subsequence(choice: Seq<char>, pattern: Seq<char>, case_sensitive: bool) -> bool
    decreases choice.len(),
{
    if pattern.len() == 0 {
        true
    } else if choice.len() == 0 {
        false
    } else if chars_match(choice[0], pattern[0], case_sensitive) {
        subsequence(choice.drop_first(), pattern.drop_first(), case_sensitive)
    } else {
        subsequence(choice.drop_first(), pattern, case_sensitive)
    }
}

/// The skim fuzzy matcher finds `pattern` in `choice` (smart case).
pub open spec fn skim_matches(choice: Seq<char>, pattern: Seq<char>) -> bool {
    subsequence(choice, pattern, has_ascii_upper(pattern))
}

/// What `SkimMatcherV2::default().fuzzy_match(choice, pattern)` returns.
pub uninterp spec fn skim_fuzzy_match(choice: Seq<char>, pattern: Seq<char>) -> Option<i64>;

/// Calls `fuzzy_matcher::FuzzyMatcher::fuzzy_match` on a default
/// `fuzzy_matcher::skim::SkimMatcherV2` (smart case, no element limit).
/// Claimed of it: the result depends on the two strings alone; it is `Some`
/// exactly when the pattern is a subsequence of the choice, characters compared
/// case-insensitively (ASCII) unless the pattern holds an ASCII upper-case
/// letter, as the crate's `cheap_matches` decides; an empty pattern gives
/// `Some(0)`. The value of the score is left unsaid, and so is the `i32`
/// arithmetic of the score matrix, which could only overflow on choices of
/// billions of characters.
#[verifier::external_body]
pub(crate) fn fuzzy_match(choice: &str, pattern: &str) -> (r: Option<i64>)
    ensures
        r == skim_fuzzy_match(choice@, pattern@),
        r is Some <==> skim_matches(choice@, pattern@),
        pattern@.len() == 0 ==> r == Some(0i64),
{
    SkimMatcherV2::default().fuzzy_match(choice, pattern)
}

} // verus!
