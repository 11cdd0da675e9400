//! Regular expressions, compiled and matched by the `regex` crate.
use vstd::prelude::*;

verus! {

/// `regex::Regex`, a compiled regular expression; opaque here.
#[verifier::external_type_specification]
#[verifier::external_body]
pub struct ExRegex(regex::Regex);

/// Whether `regex::RegexBuilder` accepts `pattern` with case-insensitivity
/// set to `insensitive`.
pub uninterp spec fn regex_compiles(pattern: Seq<char>, insensitive: bool) -> bool;

/// Whether the regular expression `pattern`, compiled with case-insensitivity
/// set to `insensitive`, matches anywhere in `text`.
pub uninterp spec fn regex_matches(pattern: Seq<char>, insensitive: bool, text: Seq<char>) -> bool;

/// A compiled regular expression together with the source it was compiled
/// from.
pub struct Pattern {
    source: String,
    insensitive: bool,
    re: regex::Regex,
}

impl View for Pattern {
    type V = (Seq<char>, bool);

    /// The source of the expression and whether it ignores case.
    closed spec fn view(&self) -> (Seq<char>, bool) {
        (self.source@, self.insensitive)
    }
}

/// `RegexBuilder::new(source).case_insensitive(insensitive).build()`: a
/// pattern where the builder accepts the source, `None` where it reports an
/// error. The contract names when it accepts, and ties the pattern to its
/// source, which the other items of this module rely on: `re` is only ever
/// built here, from `source`.
#[verifier::external_body]
fn build_regex(source: &str, insensitive: bool) -> (r: Option<Pattern>)
    ensures
        r is Some <==> regex_compiles(source@, insensitive),
        r matches Some(p) ==> p@ == (source@, insensitive),
{
    match regex::RegexBuilder::new(source).case_insensitive(insensitive).build() {
        Ok(re) => Some(Pattern { source: source.to_string(), insensitive, re }),
        Err(_) => None,
    }
}

/// `Regex::is_match`: whether the expression matches anywhere in `text`. The
/// contract names the result, as a function of the pattern's source, its
/// case setting and the text.
#[verifier::external_body]
fn regex_is_match(p: &Pattern, text: &str) -> (r: bool)
    ensures
        r == regex_matches(p@.0, p@.1, text@),
{
    p.re.is_match(text)
}

impl Pattern {
    /// Compiles `source`, ignoring case when `insensitive`; `None` where it is
    /// not a valid regular expression.
    pub fn new(source: &str, insensitive: bool) -> (r: Option<Pattern>)
        ensures
            r is Some <==> regex_compiles(source@, insensitive),
            r matches Some(p) ==> p@ == (source@, insensitive),
    {
        build_regex(source, insensitive)
    }

    /// Whether the expression matches anywhere in `text`.
    pub fn is_match(&self, text: &str) -> (r: bool)
        ensures
            r == regex_matches(self@.0, self@.1, text@),
    {
        regex_is_match(self, text)
    }
}

} // verus!
