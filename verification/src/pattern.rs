//! Regular-expression search, done by the `regex` crate.
//!
//! The parsers recognise their line shapes and brace groups with regular
//! expressions. What a search finds is not restated here: it is named by
//! [`first_match`], and the parsers' contracts speak of that name.

use crate::text::{opt_text, to_chars};
use regex::Regex;
use vstd::prelude::*;

verus! {

/// `regex::Regex`, a compiled regular expression. Nothing is said of what
/// it holds; it is carried from [`Matcher::compile`] to
/// [`Matcher::captures`].
#[verifier::external_type_specification]
#[verifier::external_body]
pub struct ExRegex(Regex);

/// What a search found: the text before the match, the text of every capture
/// group (group 0 is the whole match; a group that took no part is `None`),
/// and the text after the match.
pub struct Captured {
    pub before: String,
    pub groups: Vec<Option<String>>,
    pub after: String,
}

/// The mathematical view of a [`Captured`].
pub struct Found {
    pub before: Seq<char>,
    pub groups: Seq<Option<Seq<char>>>,
    pub after: Seq<char>,
}

impl View for Captured {
    type V = Found;

    open spec fn view(&self) -> Found {
        Found {
            before: self.before@,
            groups: self.groups@.map_values(|g: Option<String>| opt_text(g)),
            after: self.after@,
        }
    }
}

impl Found {
    /// The text of group `i`, where that group exists and took part in the
    /// match.
    pub open spec fn group(self, i: int) -> Option<Seq<char>> {
        if 0 <= i < self.groups.len() {
            self.groups[i]
        } else {
            None
        }
    }

    /// Whether this is a match in `text`: group 0, the whole match, is
    /// there, and the text before the match, the match and the text after
    /// it make up `text`.
    pub open spec fn splits(self, text: Seq<char>) -> bool {
        &&& self.group(0).is_some()
        &&& self.before + self.group(0).unwrap() + self.after == text
    }
}

/// The view of an optional search result.
pub open spec fn opt_found(c: Option<Captured>) -> Option<Found> {
    match c {
        Some(c) => Some(c@),
        None => None,
    }
}

/// Group `i` of a search result, where there is a match and the group took
/// part in it.
pub open spec fn group_of(found: Option<Found>, i: int) -> Option<Seq<char>> {
    match found {
        Some(f) => f.group(i),
        None => None,
    }
}

/// The leftmost match of the regular expression `pattern` in `text`, as
/// `regex::Regex::captures` reports it. `None` where nothing matches, and
/// where `pattern` is not a regular expression that `regex::Regex::new`
/// accepts.
pub uninterp spec fn first_match(pattern: Seq<char>, text: Seq<char>) -> Option<Found>;

/// A compiled regular expression together with its source. Values are made
/// by [`Matcher::compile`] only.
pub struct Matcher {
    source: String,
    compiled: Option<Regex>,
}

impl Matcher {
    /// The regular expression that this matcher was compiled from.
    pub closed spec fn pattern(&self) -> Seq<char> {
        self.source@
    }

    /// Compiles `pattern` with `regex::Regex::new`. A pattern that the crate
    /// rejects gives a matcher that finds nothing.
    #[verifier::external_body]
    pub(crate) fn compile(pattern: &str) -> (m: Matcher)
        ensures
            m.pattern() == pattern@,
    {
        Matcher { source: pattern.to_string(), compiled: Regex::new(pattern).ok() }
    }

    /// Searches `text` with `regex::Regex::captures` and hands out the match
    /// as owned strings: the haystack before the whole match, each group's
    /// text, the haystack after the whole match. The search is a function of
    /// the pattern and the text alone; its result is named [`first_match`].
    /// Of every match the crate says that group 0 is present and is the part
    /// of the haystack between the offsets of the match, so the three parts
    /// handed out make up the haystack.
    #[verifier::external_body]
    pub(crate) fn captures(&self, text: &str) -> (found: Option<Captured>)
        ensures
            opt_found(found) == first_match(self.pattern(), text@),
            found matches Some(c) ==> c@.splits(text@),
    {
        let caps = self.compiled.as_ref()?.captures(text)?;
        let whole = caps.get_match();
        Some(
            Captured {
                before: text[..whole.start()].to_string(),
                groups: caps.iter().map(|g| g.map(|m| m.as_str().to_string())).collect(),
                after: text[whole.end()..].to_string(),
            },
        )
    }
}

impl Captured {
    /// The characters of group `i`, where that group exists and took part in
    /// the match.
    pub fn group(&self, i: usize) -> (text: Option<Vec<char>>)
        ensures
            match text {
                Some(t) => self@.group(i as int) == Some(t@),
                None => self@.group(i as int).is_none(),
            },
    {
        if i < self.groups.len() {
            match &self.groups[i] {
                Some(s) => Some(to_chars(s.as_str())),
                None => None,
            }
        } else {
            None
        }
    }
}

} // verus!
