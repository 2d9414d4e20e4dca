//! Compiled regular expressions. Compilation and matching are done by the
//! `regex` crate behind trusted wrappers; everything the contracts say about a
//! compiled regex is said in terms of the pattern text it was built from.
use vstd::prelude::*;

verus! {

#[verifier::external_type_specification]
#[verifier::external_body]
pub struct ExRegex(regex::Regex);

/// Whether `regex::Regex::new` accepts a pattern (case-sensitive compilation).
pub uninterp spec fn regex_ok(pat: Seq<char>) -> bool;

/// Whether `regex::RegexBuilder::build` accepts a pattern when the builder is
/// set to case-insensitive matching.
pub uninterp spec fn regex_ci_ok(pat: Seq<char>) -> bool;

/// What `regex::Regex::is_match` returns for a regex compiled from `pat` (with
/// the given case-insensitivity setting) on the haystack `text`.
pub uninterp spec fn regex_match(ci: bool, pat: Seq<char>, text: Seq<char>) -> bool;

/// A compiled regular expression, holding the pattern text it was built from
/// and whether it was compiled for case-insensitive matching.
#[derive(Debug)]
pub struct CompiledRegex {
    re: regex::Regex,
    pattern: String,
    ci: bool,
}

impl CompiledRegex {
    /// The pattern text this regex was compiled from.
    pub closed spec fn spec_pattern(&self) -> Seq<char> {
        self.pattern@
    }

    /// Whether this regex matches case-insensitively.
    pub closed spec fn spec_ci(&self) -> bool {
        self.ci
    }

    /// The pattern text, for error reporting and display.
    pub fn pattern_text(&self) -> (r: String)
        ensures
            r@ == self.spec_pattern(),
    {
        self.pattern.clone()
    }
}

/// Relies on `regex::Regex::new`: whether a pattern compiles depends on the
/// pattern text alone, and the returned regex matches as a pure function of
/// that text.
#[verifier::external_body]
pub fn compile_regex(pat: &Vec<char>) -> (r: Option<CompiledRegex>)
    ensures
        r is Some <==> regex_ok(pat@),
        r is Some ==> r.unwrap().spec_pattern() == pat@ && r.unwrap().spec_ci() == false,
{
    let text: String = pat.iter().collect();
    match regex::Regex::new(&text) {
        Ok(re) => Some(CompiledRegex { re, pattern: text, ci: false }),
        Err(_) => None,
    }
}

/// Relies on `regex::RegexBuilder::build` after `case_insensitive(true)`:
/// whether a pattern compiles depends on the pattern text alone, and the
/// returned regex matches as a pure function of that text and the flag.
#[verifier::external_body]
pub fn compile_regex_ci(pat: &Vec<char>) -> (r: Option<CompiledRegex>)
    ensures
        r is Some <==> regex_ci_ok(pat@),
        r is Some ==> r.unwrap().spec_pattern() == pat@ && r.unwrap().spec_ci() == true,
{
    let text: String = pat.iter().collect();
    match regex::RegexBuilder::new(&text).case_insensitive(true).build() {
        Ok(re) => Some(CompiledRegex { re, pattern: text, ci: true }),
        Err(_) => None,
    }
}

/// Relies on `regex::Regex::is_match`: matching never fails and its result is
/// a pure function of the compiled pattern (and flag) and the haystack.
#[verifier::external_body]
pub fn regex_is_match(re: &CompiledRegex, text: &Vec<char>) -> (r: bool)
    ensures
        r == regex_match(re.spec_ci(), re.spec_pattern(), text@),
{
    let hay: String = text.iter().collect();
    re.re.is_match(&hay)
}

} // verus!
