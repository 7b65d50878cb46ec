//! Regular expressions, matched by the `regex` crate.
use crate::config::opt_text;
use vstd::prelude::*;

verus! {

#[verifier::external_type_specification]
#[verifier::external_body]
pub struct ExRegex(regex::Regex);

/// Whether `regex::Regex::new` refuses a pattern, and its message if so.
pub uninterp spec fn regex_error(pattern: Seq<char>) -> Option<Seq<char>>;

/// The text of the named group in the first match of a pattern in a text
/// (none when there is no match or the group did not take part).
pub uninterp spec fn regex_named_capture(pattern: Seq<char>, text: Seq<char>, name: Seq<char>) -> Option<Seq<char>>;

/// The text of a numbered group in the first match of a pattern in a text.
pub uninterp spec fn regex_group_capture(pattern: Seq<char>, text: Seq<char>, group: nat) -> Option<Seq<char>>;

/// For every non-overlapping match of a pattern in a text, in order, the
/// text of the named group.
pub uninterp spec fn regex_named_captures(pattern: Seq<char>, text: Seq<char>, name: Seq<char>) -> Seq<Option<Seq<char>>>;

/// A compiled regular expression and the pattern it was compiled from.
#[derive(Debug)]
pub struct Pattern {
    source: String,
    regex: regex::Regex,
}

impl View for Pattern {
    type V = Seq<char>;

    closed spec fn view(&self) -> Seq<char> {
        self.source@
    }
}

/// The optional texts of a list of optional strings.
pub open spec fn opt_texts(v: Seq<Option<String>>) -> Seq<Option<Seq<char>>> {
    v.map_values(|o: Option<String>| opt_text(o))
}

/// Calls `regex::Regex::new`: the compiled pattern, or the error's message.
#[verifier::external_body]
pub(crate) fn compile(pattern: &str) -> (r: Result<Pattern, String>)
    ensures
        match r {
            Ok(p) => p@ == pattern@ && regex_error(pattern@) is None,
            Err(m) => regex_error(pattern@) == Some(m@),
        },
{
    match regex::Regex::new(pattern) {
        Ok(regex) => Ok(Pattern { source: pattern.to_string(), regex }),
        Err(e) => Err(e.to_string()),
    }
}

/// Calls `regex::Regex::captures` and takes the named group of the match.
#[verifier::external_body]
pub(crate) fn named_capture(p: &Pattern, text: &str, name: &str) -> (r: Option<String>)
    ensures
        opt_text(r) == regex_named_capture(p@, text@, name@),
{
    p.regex.captures(text).and_then(|c| c.name(name)).map(|m| m.as_str().to_string())
}

/// Calls `regex::Regex::captures` and takes a numbered group of the match.
#[verifier::external_body]
pub(crate) fn group_capture(p: &Pattern, text: &str, group: usize) -> (r: Option<String>)
    ensures
        opt_text(r) == regex_group_capture(p@, text@, group as nat),
{
    p.regex.captures(text).and_then(|c| c.get(group)).map(|m| m.as_str().to_string())
}

/// Calls `regex::Regex::captures_iter` and takes the named group of every
/// match.
#[verifier::external_body]
pub(crate) fn named_captures(p: &Pattern, text: &str, name: &str) -> (r: Vec<Option<String>>)
    ensures
        opt_texts(r@) == regex_named_captures(p@, text@, name@),
{
    p.regex.captures_iter(text).map(|c| c.name(name).map(|m| m.as_str().to_string())).collect()
}

} // verus!
