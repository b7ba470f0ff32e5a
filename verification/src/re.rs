//! Compiled `regex:` terms, through the `regex` crate.

use vstd::prelude::*;

verus! {

#[verifier::external_type_specification]
#[verifier::external_body]
pub struct ExRegex(regex::Regex);

/// Whether `regex::RegexBuilder` accepts `pattern` with the given case mode
/// (a syntax error or an exceeded size limit refuses it).
pub uninterp spec fn regex_builds(pattern: Seq<char>, case_insensitive: bool) -> bool;

/// Whether the regex built from `pattern` with the given case mode matches
/// somewhere in `haystack`.
pub uninterp spec fn regex_matches(
    pattern: Seq<char>,
    case_insensitive: bool,
    haystack: Seq<char>,
) -> bool;

/// A compiled regex together with the pattern and case mode it was built
/// from. Only [`CompiledRegex::compile`] constructs one.
pub struct CompiledRegex {
    pattern: String,
    case_insensitive: bool,
    re: regex::Regex,
}

impl CompiledRegex {
    pub closed spec fn pattern_view(&self) -> Seq<char> {
        self.pattern@
    }

    pub closed spec fn is_case_insensitive(&self) -> bool {
        self.case_insensitive
    }

    /// `regex::RegexBuilder::new(pattern).case_insensitive(ci).build()`.
    /// Trusted: the builder's answer depends on the pattern and the case mode
    /// alone; nothing is claimed of which patterns it accepts.
    #[verifier::external_body]
    pub fn compile(pattern: &str, case_insensitive: bool) -> (r: Option<CompiledRegex>)
        ensures
            r is Some == regex_builds(pattern@, case_insensitive),
            r matches Some(c) ==> c.pattern_view() == pattern@ && c.is_case_insensitive()
                == case_insensitive,
    {
        match regex::RegexBuilder::new(pattern).case_insensitive(case_insensitive).build() {
            Ok(re) => Some(CompiledRegex { pattern: pattern.to_string(), case_insensitive, re }),
            Err(_) => None,
        }
    }

    /// `regex::Regex::is_match`. Trusted: the answer depends on the compiled
    /// pattern, its case mode and the haystack alone.
    #[verifier::external_body]
    pub fn is_match(&self, haystack: &str) -> (r: bool)
        ensures
            r == regex_matches(self.pattern_view(), self.is_case_insensitive(), haystack@),
    {
        self.re.is_match(haystack)
    }
}

} // verus!
