//! A compiled regular expression that remembers the pattern it was compiled
//! from (the regex crate does the matching).

use vstd::prelude::*;

verus! {

#[verifier::external_type_specification]
#[verifier::external_body]
pub struct ExRegex(regex::Regex);

#[verifier::external_type_specification]
#[verifier::external_body]
pub struct ExRegexError(regex::Error);

/// Whether the regex crate finds a match of the regular expression
/// `pattern` anywhere in `text`.
pub uninterp spec fn regex_is_match(pattern: Seq<char>, text: Seq<char>) -> bool;

/// Whether the regex crate accepts `pattern` as a regular expression.
pub uninterp spec fn regex_compiles(pattern: Seq<char>) -> bool;

/// A regular expression compiled by the regex crate, with its source. A
/// value is only made by `TagPattern::compile`, so `regex` is always the
/// compilation of `source`.
pub struct TagPattern {
    source: String,
    regex: regex::Regex,
}

impl TagPattern {
    /// The pattern this expression was compiled from.
    pub closed spec fn source(&self) -> Seq<char> {
        self.source@
    }

    /// The pattern of release tags, such as `v1.2.0`: a `v`, a digit and a
    /// dot.
    pub open spec fn release_source() -> Seq<char> {
        seq!['v', '\\', 'd', '\\', '.']
    }

    /// The compiled pattern of release tags (`v\d\.`), or the regex crate's
    /// error if it refuses it.
    pub fn release_tags() -> (r: Result<TagPattern, regex::Error>)
        ensures
            r is Ok <==> regex_compiles(Self::release_source()),
            r matches Ok(p) ==> p.source() == Self::release_source(),
    {
        let source = "v\\d\\.";
        proof {
            reveal_strlit("v\\d\\.");
        }
        assert(source@ =~= Self::release_source());
        Self::compile(source)
    }

    /// `Regex::new(source)`: compiles the pattern; it succeeds exactly when
    /// the regex crate accepts the pattern (the named `regex_compiles`), and
    /// the result then remembers `source`; the regex crate's error comes
    /// back otherwise.
    #[verifier::external_body]
    pub(crate) fn compile(source: &str) -> (r: Result<TagPattern, regex::Error>)
        ensures
            r is Ok <==> regex_compiles(source@),
            r matches Ok(p) ==> p.source() == source@,
    {
        match regex::Regex::new(source) {
            Ok(regex) => Ok(TagPattern { source: source.to_string(), regex }),
            Err(e) => Err(e),
        }
    }

    /// `Regex::is_match(text)`: whether the pattern matches somewhere in
    /// `text`, which is the named `regex_is_match` of the source and the
    /// text.
    #[verifier::external_body]
    pub(crate) fn is_match(&self, text: &str) -> (b: bool)
        ensures
            b == regex_is_match(self.source(), text@),
    {
        self.regex.is_match(text)
    }
}

} // verus!
