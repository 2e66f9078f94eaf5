//! Regular expressions, compiled by the `regex` crate, and the groups they capture.
use regex::Regex;
use vstd::prelude::*;

verus! {

#[verifier::external_type_specification]
#[verifier::external_body]
pub struct ExRegex(Regex);

/// Whether the `regex` crate's `Regex::new` accepts `pattern`.
pub uninterp spec fn regex_compiles(pattern: Seq<char>) -> bool;

/// The groups that the `regex` crate's `Regex::captures` finds for `pattern` in `text`
/// (group 0 first, `None` for a group that did not take part), or `None` when there is no match.
pub uninterp spec fn regex_captures(pattern: Seq<char>, text: Seq<char>) -> Option<Seq<Option<Seq<char>>>>;

/// The view of captured groups.
pub open spec fn groups_text(groups: Seq<Option<String>>) -> Seq<Option<Seq<char>>> {
    groups.map_values(|g: Option<String>| match g {
        Some(s) => Some(s@),
        None => None,
    })
}

/// The view of an optional list of captured groups.
pub open spec fn captures_text(c: Option<Vec<Option<String>>>) -> Option<Seq<Option<Seq<char>>>> {
    match c {
        Some(v) => Some(groups_text(v@)),
        None => None,
    }
}

/// Group `i` of `groups`, `None` when it is absent or did not take part.
pub open spec fn group_at(groups: Seq<Option<Seq<char>>>, i: int) -> Option<Seq<char>> {
    if 0 <= i < groups.len() {
        groups[i]
    } else {
        None
    }
}

/// A compiled regular expression together with its source text.
pub struct Pattern {
    source: String,
    regex: Regex,
}

impl Pattern {
    /// The source text that the pattern was compiled from.
    pub closed spec fn source(&self) -> Seq<char> {
        self.source@
    }

    /// Compiles `source` with the `regex` crate's `Regex::new`. Claimed: a pattern comes back
    /// exactly when the named `regex_compiles` holds of `source`, and it keeps `source` as its
    /// text.
    #[verifier::external_body]
    pub(crate) fn compile(source: &str) -> (p: Option<Pattern>)
        ensures
            p is Some == regex_compiles(source@),
            p matches Some(p) ==> p.source() == source@,
    {
        Regex::new(source).ok().map(|regex| Pattern { source: source.to_string(), regex })
    }

    /// Runs the `regex` crate's `Regex::captures` on `text` and copies out every group
    /// (`Captures::iter`). Claimed: the result is the named `regex_captures` of the pattern's
    /// source and `text`.
    #[verifier::external_body]
    pub(crate) fn captures(&self, text: &str) -> (groups: Option<Vec<Option<String>>>)
        ensures
            captures_text(groups) == regex_captures(self.source(), text@),
    {
        self.regex.captures(text).map(
            |caps| caps.iter().map(|m| m.map(|m| m.as_str().to_string())).collect(),
        )
    }
}

/// Group `i` of `groups`, if it is there and took part in the match.
pub fn group(groups: &Vec<Option<String>>, i: usize) -> (g: Option<&String>)
    ensures
        match g {
            Some(s) => group_at(groups_text(groups@), i as int) == Some(s@),
            None => group_at(groups_text(groups@), i as int) is None,
        },
{
    if i < groups.len() {
        match &groups[i] {
            Some(s) => Some(s),
            None => None,
        }
    } else {
        None
    }
}

} // verus!
