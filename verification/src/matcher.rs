//! The compiled pattern matcher: a thin trusted boundary around grep's
//! regex front end.

use vstd::prelude::*;

verus! {

#[verifier::external_type_specification]
#[verifier::external_body]
pub struct ExRegexMatcher(grep_regex::RegexMatcher);

/// Whether grep's regex front end accepts `pattern` when built with the
/// given case sensitivity. Compilation depends on the pattern and the flag
/// alone.
pub uninterp spec fn regex_ok(pattern: Seq<char>, case_sensitive: bool) -> bool;

/// The pattern a compiled matcher was built from.
pub uninterp spec fn matcher_pattern(m: grep_regex::RegexMatcher) -> Seq<char>;

/// The case sensitivity a compiled matcher was built with.
pub uninterp spec fn matcher_case_sensitive(m: grep_regex::RegexMatcher) -> bool;

/// Relies on grep_regex's `RegexMatcherBuilder`: build a matcher for
/// `pattern`, case-insensitive unless `case_sensitive` is set. Building
/// succeeds if and only if the pattern compiles under that configuration.
#[verifier::external_body]
pub(crate) fn compile_matcher(pattern: &str, case_sensitive: bool) -> (r: Option<
    grep_regex::RegexMatcher,
>)
    ensures
        r is Some <==> regex_ok(pattern@, case_sensitive),
        r matches Some(m) ==> matcher_pattern(m) == pattern@ && matcher_case_sensitive(m)
            == case_sensitive,
{
    grep_regex::RegexMatcherBuilder::new().case_insensitive(!case_sensitive).build(pattern).ok()
}

} // verus!
