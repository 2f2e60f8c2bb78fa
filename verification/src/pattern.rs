//! Compiled snapshot patterns.
//!
//! The match itself is done by the `regex` crate.  Its outcome is a
//! pure function of the pattern text and the matched text, so the
//! contracts name that outcome and everything downstream is verified
//! against the names.

use vstd::prelude::*;

verus! {

#[verifier::external_type_specification]
#[verifier::external_body]
pub struct ExRegex(regex::Regex);

#[verifier::external_type_specification]
#[verifier::external_body]
pub struct ExRegexError(regex::Error);

/// Whether the pattern compiles: `regex::Regex::new` accepts or
/// rejects a pattern string deterministically.
pub uninterp spec fn regex_compiles(pattern: Seq<char>) -> bool;

/// Whether the compiled pattern matches somewhere in `text`.
pub uninterp spec fn regex_matches(pattern: Seq<char>, text: Seq<char>) -> bool;

/// The text captured by named group `group` in the leftmost match of
/// the pattern in `text`, or `None` when the group does not exist or
/// did not participate in the match.
pub uninterp spec fn regex_group(pattern: Seq<char>, text: Seq<char>, group: Seq<char>) -> Option<
    Seq<char>,
>;

/// The outcome of applying a compiled pattern to a snapshot name.
pub struct PatternMatch {
    pub matched: bool,
    pub id: Option<String>,
    pub label: Option<String>,
}

/// A pattern together with the compiled program for it.  Values exist
/// only through [`CompiledPattern::compile`], so the program is always
/// the one compiled from `source`.
pub struct CompiledPattern {
    source: String,
    regex: regex::Regex,
}

impl CompiledPattern {
    /// The pattern text this was compiled from.
    pub closed spec fn spec_source(&self) -> Seq<char> {
        self.source@
    }

    pub fn source(&self) -> (r: &String)
        ensures
            r@ == self.spec_source(),
    {
        &self.source
    }

    /// Relies on `regex::Regex::new`: it returns `Ok` exactly for the
    /// pattern strings it accepts, deterministically in the pattern.
    #[verifier::external_body]
    pub fn compile(source: &str) -> (r: Result<CompiledPattern, regex::Error>)
        ensures
            r is Ok <==> regex_compiles(source@),
            r matches Ok(p) ==> p.spec_source() == source@,
    {
        match regex::Regex::new(source) {
            Ok(re) => Ok(CompiledPattern { source: source.to_owned(), regex: re }),
            Err(e) => Err(e),
        }
    }

    /// Relies on `regex::Regex::captures` and `regex::Captures::name`:
    /// whether the pattern matches, and what each named group
    /// captured, depend only on the pattern and the text.
    #[verifier::external_body]
    pub fn apply(&self, text: &str) -> (r: PatternMatch)
        ensures
            r.matched == regex_matches(self.spec_source(), text@),
            !r.matched ==> r.id is None && r.label is None,
            r.matched ==> (r.id is Some <==> regex_group(self.spec_source(), text@, "id"@)
                is Some),
            r.matched ==> (r.label is Some <==> regex_group(self.spec_source(), text@, "label"@)
                is Some),
            r.id matches Some(s) ==> regex_group(self.spec_source(), text@, "id"@) == Some(s@),
            r.label matches Some(s) ==> regex_group(self.spec_source(), text@, "label"@) == Some(
                s@,
            ),
    {
        match self.regex.captures(text) {
            None => PatternMatch { matched: false, id: None, label: None },
            Some(c) => PatternMatch {
                matched: true,
                id: c.name("id").map(|m| m.as_str().to_owned()),
                label: c.name("label").map(|m| m.as_str().to_owned()),
            },
        }
    }
}

} // verus!
