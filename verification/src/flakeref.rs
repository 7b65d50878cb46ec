//! Flake references and the revisions appended to them.
use crate::error::join2;
use crate::text::{has_prefix, starts_with, strip_prefix};
use vstd::prelude::*;

verus! {

/// The reference pinned at `rev`: `git+` references take a `?rev=` query,
/// all others (`github:`, `gitlab:`, `sourcehut:`) a path segment.
pub open spec fn spec_append_rev(flake_ref: Seq<char>, rev: Seq<char>) -> Seq<char> {
    if has_prefix(flake_ref, "git+"@) {
        flake_ref + "?rev="@ + rev
    } else {
        flake_ref + "/"@ + rev
    }
}

/// Appends a revision to a flake reference according to its scheme.
pub fn append_rev(flake_ref: &str, rev: &str) -> (r: String)
    ensures
        r@ == spec_append_rev(flake_ref@, rev@),
{
    if starts_with(flake_ref, "git+") {
        crate::error::join3(flake_ref, "?rev=", rev)
    } else {
        crate::error::join3(flake_ref, "/", rev)
    }
}

/// The characters that have a meaning of their own in a regular expression.
pub open spec fn is_regex_meta(c: char) -> bool {
    ||| c == '\\' ||| c == '.' ||| c == '+' ||| c == '*' ||| c == '?'
    ||| c == '(' ||| c == ')' ||| c == '|' ||| c == '[' ||| c == ']'
    ||| c == '{' ||| c == '}' ||| c == '^' ||| c == '$' ||| c == '#'
    ||| c == '&' ||| c == '-' ||| c == '~'
}

/// The text with a backslash before each regular-expression meta character,
/// so that a regular expression made of it matches the text literally.
pub open spec fn regex_escaped(s: Seq<char>) -> Seq<char>
    decreases s.len(),
{
    if s.len() == 0 {
        seq![]
    } else if is_regex_meta(s.last()) {
        regex_escaped(s.drop_last()) + seq!['\\', s.last()]
    } else {
        regex_escaped(s.drop_last()).push(s.last())
    }
}

/// Calls `regex::escape`, which puts a backslash before each of the meta
/// characters `\ . + * ? ( ) | [ ] { } ^ $ # & - ~` and copies every other
/// character.
#[verifier::external_body]
fn escape_regex(text: &str) -> (r: String)
    ensures
        r@ == regex_escaped(text@),
{
    regex::escape(text)
}

/// The capture group that matches a revision in a pinned URL.
pub open spec fn rev_group() -> Seq<char> {
    "(?P<rev>[0-9a-f]+)"@
}

/// The regular expression that matches `flake_ref` pinned at any hexadecimal
/// revision, capturing the revision as `rev`.
pub open spec fn spec_flake_ref_rev_pattern(flake_ref: Seq<char>) -> Seq<char> {
    if has_prefix(flake_ref, "git+"@) {
        regex_escaped(flake_ref) + "\\?rev="@ + rev_group()
    } else {
        regex_escaped(flake_ref) + "/"@ + rev_group()
    }
}

/// Builds the regular expression that finds `flake_ref` pinned at a revision.
pub fn flake_ref_rev_pattern(flake_ref: &str) -> (r: String)
    ensures
        r@ == spec_flake_ref_rev_pattern(flake_ref@),
{
    let escaped = escape_regex(flake_ref);
    let rev_group = "(?P<rev>[0-9a-f]+)";
    if starts_with(flake_ref, "git+") {
        crate::error::join3(escaped.as_str(), "\\?rev=", rev_group)
    } else {
        crate::error::join3(escaped.as_str(), "/", rev_group)
    }
}

/// The `owner/repo` of a `github:owner/repo` reference.
pub open spec fn spec_github_repo(flake_ref: Seq<char>) -> Option<Seq<char>> {
    if has_prefix(flake_ref, "github:"@) {
        Some(flake_ref.subrange("github:"@.len() as int, flake_ref.len() as int))
    } else {
        None
    }
}

/// Extracts `owner/repo` from a `github:owner/repo` flake reference.
pub fn extract_github_repo(flake_ref: &str) -> (r: Option<String>)
    ensures
        match r {
            Some(repo) => spec_github_repo(flake_ref@) == Some(repo@),
            None => spec_github_repo(flake_ref@) is None,
        },
{
    strip_prefix(flake_ref, "github:")
}

} // verus!
